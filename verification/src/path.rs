//! Absolute paths as sequences of names, and the lexical rules for walking
//! a path text from a position: joining, normalising, parent and prefix.

use vstd::prelude::*;
use vstd::string::*;

verus! {

/// The segments of a path text: the runs of characters between separators,
/// empty runs included. A text without a separator is one segment.
pub open spec fn segments(text: Seq<char>) -> Seq<Seq<char>>
    decreases text.len(),
{
    if text.len() == 0 {
        seq![Seq::empty()]
    } else {
        let before = segments(text.drop_last());
        if text.last() == '/' {
            before.push(Seq::empty())
        } else {
            before.drop_last().push(before.last().push(text.last()))
        }
    }
}

/// The segment `.`, which stands for the position itself.
pub open spec fn is_dot(seg: Seq<char>) -> bool {
    seg.len() == 1 && seg[0] == '.'
}

/// The segment `..`, which stands for the position above.
pub open spec fn is_dot_dot(seg: Seq<char>) -> bool {
    seg.len() == 2 && seg[0] == '.' && seg[1] == '.'
}

/// A segment that names an entry of a directory: not empty, not `.` or `..`,
/// and free of separators.
pub open spec fn is_name(seg: Seq<char>) -> bool {
    &&& seg.len() > 0
    &&& !is_dot(seg)
    &&& !is_dot_dot(seg)
    &&& forall|k: int| 0 <= k < seg.len() ==> seg[k] != '/'
}

/// A path in which every component names an entry.
pub open spec fn is_normal(path: Seq<Seq<char>>) -> bool {
    forall|i: int| 0 <= i < path.len() ==> is_name(#[trigger] path[i])
}

/// Where one segment leads from the position `at`: an empty segment and `.`
/// stay, `..` goes one up and stays at the root, a name goes one down.
pub open spec fn walk_one(at: Seq<Seq<char>>, seg: Seq<char>) -> Seq<Seq<char>> {
    if seg.len() == 0 || is_dot(seg) {
        at
    } else if is_dot_dot(seg) {
        if at.len() > 0 {
            at.drop_last()
        } else {
            at
        }
    } else {
        at.push(seg)
    }
}

/// Where a run of segments leads from the position `at`, taken left to right.
pub open spec fn walk(at: Seq<Seq<char>>, segs: Seq<Seq<char>>) -> Seq<Seq<char>>
    decreases segs.len(),
{
    if segs.len() == 0 {
        at
    } else {
        walk_one(walk(at, segs.drop_last()), segs.last())
    }
}

/// Where a path text leads from the position `at`.
pub open spec fn resolve(at: Seq<Seq<char>>, text: Seq<char>) -> Seq<Seq<char>> {
    walk(at, segments(text))
}

/// A text that starts at the root.
pub open spec fn is_absolute(text: Seq<char>) -> bool {
    text.len() > 0 && text[0] == '/'
}

/// The position above `path`; the root is its own parent.
pub open spec fn parent_of(path: Seq<Seq<char>>) -> Seq<Seq<char>> {
    if path.len() > 0 {
        path.drop_last()
    } else {
        path
    }
}

/// The final component of `path`; the root has the empty name.
pub open spec fn file_name_of(path: Seq<Seq<char>>) -> Seq<char> {
    if path.len() > 0 {
        path.last()
    } else {
        Seq::empty()
    }
}

/// Whether `child` lies directly below `parent`: one name further down.
pub open spec fn lies_directly_below(child: Seq<Seq<char>>, parent: Seq<Seq<char>>) -> bool {
    child.len() == parent.len() + 1 && child.drop_last() == parent
}

/// Where `path` lies after the directory that its first `depth` components
/// lead to has been moved to `to`: at the same place below `to` that it had
/// below that directory.
pub open spec fn moved(path: Seq<Seq<char>>, depth: nat, to: Seq<Seq<char>>) -> Seq<Seq<char>> {
    to + path.skip(depth as int)
}

/// The components joined by separators, without a leading one.
pub open spec fn render_relative(path: Seq<Seq<char>>) -> Seq<char>
    decreases path.len(),
{
    if path.len() == 0 {
        Seq::empty()
    } else if path.len() == 1 {
        path[0]
    } else {
        render_relative(path.drop_last()) + seq!['/'] + path.last()
    }
}

/// The text of an absolute path: a separator, then the components joined by
/// separators.
pub open spec fn render(path: Seq<Seq<char>>) -> Seq<char> {
    seq!['/'] + render_relative(path)
}

/// The texts that a vector of strings holds.
pub open spec fn names(v: Seq<String>) -> Seq<Seq<char>> {
    Seq::new(v.len(), |i: int| v[i]@)
}

/// A text always has at least one segment.
pub proof fn lemma_segments_nonempty(text: Seq<char>)
    ensures
        segments(text).len() >= 1,
    decreases text.len(),
{
    if text.len() > 0 {
        lemma_segments_nonempty(text.drop_last());
    }
}

/// Walking one segment from a normal path gives a normal path, provided the
/// segment holds no separator.
pub proof fn lemma_walk_one_normal(at: Seq<Seq<char>>, seg: Seq<char>)
    requires
        is_normal(at),
        forall|k: int| 0 <= k < seg.len() ==> seg[k] != '/',
    ensures
        is_normal(walk_one(at, seg)),
{
}

/// A text without a separator is a single segment.
pub proof fn lemma_segments_of_plain_text(text: Seq<char>)
    requires
        forall|k: int| 0 <= k < text.len() ==> text[k] != '/',
    ensures
        segments(text) == seq![text],
    decreases text.len(),
{
    if text.len() == 0 {
        assert(text =~= Seq::<char>::empty());
    } else {
        lemma_segments_of_plain_text(text.drop_last());
        let before = segments(text.drop_last());
        assert(before.drop_last().push(before.last().push(text.last())) =~= seq![text]) by {
            assert(text.drop_last().push(text.last()) =~= text);
        }
    }
}

/// The segments of two texts joined by a separator are the segments of the
/// first followed by those of the second.
pub proof fn lemma_segments_of_joined_texts(first: Seq<char>, second: Seq<char>)
    ensures
        segments(first + seq!['/'] + second) == segments(first) + segments(second),
    decreases second.len(),
{
    let whole = first + seq!['/'] + second;
    lemma_segments_nonempty(first);
    if second.len() == 0 {
        assert(whole.drop_last() =~= first);
        assert(segments(first).push(Seq::<char>::empty()) =~= segments(first) + segments(second));
    } else {
        lemma_segments_of_joined_texts(first, second.drop_last());
        lemma_segments_nonempty(second.drop_last());
        assert(whole.drop_last() =~= first + seq!['/'] + second.drop_last());
        assert(whole.last() == second.last());
        let a = segments(first);
        let b = segments(second.drop_last());
        if second.last() == '/' {
            assert((a + b).push(Seq::<char>::empty()) =~= a + b.push(Seq::<char>::empty()));
        } else {
            let grown = b.last().push(second.last());
            assert((a + b).drop_last().push((a + b).last().push(second.last())) =~= a
                + b.drop_last().push(grown));
        }
    }
}

/// Walking two runs of segments one after the other is walking their
/// concatenation.
pub proof fn lemma_walk_in_two_parts(at: Seq<Seq<char>>, first: Seq<Seq<char>>, second: Seq<Seq<char>>)
    ensures
        walk(at, first + second) == walk(walk(at, first), second),
    decreases second.len(),
{
    if second.len() == 0 {
        assert(first + second =~= first);
    } else {
        lemma_walk_in_two_parts(at, first, second.drop_last());
        assert((first + second).drop_last() =~= first + second.drop_last());
        assert((first + second).last() == second.last());
    }
}

/// Walking a normal path from a position goes down by each of its names.
pub proof fn lemma_walk_of_names(at: Seq<Seq<char>>, path: Seq<Seq<char>>)
    requires
        is_normal(path),
    ensures
        walk(at, path) == at + path,
    decreases path.len(),
{
    if path.len() == 0 {
        assert(at + path =~= at);
    } else {
        lemma_walk_of_names(at, path.drop_last());
        assert(is_name(path.last()));
        assert((at + path.drop_last()).push(path.last()) =~= at + path);
    }
}

/// A name leads one down.
pub proof fn lemma_resolve_name(at: Seq<Seq<char>>, name: Seq<char>)
    requires
        is_name(name),
    ensures
        resolve(at, name) == at.push(name),
{
    lemma_segments_of_plain_text(name);
    assert(seq![name].drop_last() =~= Seq::<Seq<char>>::empty());
    assert(walk(at, seq![name]) == walk_one(walk(at, seq![name].drop_last()), name));
}

/// The text `..` leads one up, and stays at the root.
pub proof fn lemma_resolve_dot_dot(at: Seq<Seq<char>>)
    ensures
        resolve(at, seq!['.', '.']) == parent_of(at),
{
    let text = seq!['.', '.'];
    lemma_segments_of_plain_text(text);
    assert(seq![text].drop_last() =~= Seq::<Seq<char>>::empty());
    assert(walk(at, seq![text]) == walk_one(walk(at, seq![text].drop_last()), text));
    assert(is_dot_dot(text));
}

/// The segments of the relative text of a normal path are its components.
pub proof fn lemma_segments_of_rendered(path: Seq<Seq<char>>)
    requires
        is_normal(path),
        path.len() > 0,
    ensures
        segments(render_relative(path)) == path,
    decreases path.len(),
{
    if path.len() == 1 {
        assert(is_name(path[0]));
        lemma_segments_of_plain_text(path[0]);
        assert(seq![path[0]] =~= path);
    } else {
        let front = path.drop_last();
        assert(is_normal(front)) by {
            assert forall|i: int| 0 <= i < front.len() implies is_name(#[trigger] front[i]) by {
                assert(front[i] == path[i]);
            }
        }
        lemma_segments_of_rendered(front);
        assert(is_name(path.last()));
        lemma_segments_of_plain_text(path.last());
        lemma_segments_of_joined_texts(render_relative(front), path.last());
        assert(front + seq![path.last()] =~= path);
    }
}

/// Reading back the relative text of a normal path from a position leads
/// down by exactly that path.
pub proof fn lemma_resolve_rendered(at: Seq<Seq<char>>, path: Seq<Seq<char>>)
    requires
        is_normal(path),
    ensures
        resolve(at, render_relative(path)) == at + path,
{
    if path.len() == 0 {
        let none = Seq::<char>::empty();
        assert(segments(none) == seq![none]);
        assert(seq![none].drop_last() =~= Seq::<Seq<char>>::empty());
        assert(walk(at, seq![none]) == walk_one(walk(at, seq![none].drop_last()), none));
        assert(at + path =~= at);
    } else {
        lemma_segments_of_rendered(path);
        lemma_walk_of_names(at, path);
    }
}

/// Reading back the text of a normal absolute path gives the path again.
pub proof fn lemma_render_then_read(path: Seq<Seq<char>>)
    requires
        is_normal(path),
    ensures
        is_absolute(render(path)),
        resolve(Seq::empty(), render(path)) == path,
{
    let none = Seq::<char>::empty();
    let root = Seq::<Seq<char>>::empty();
    assert(render(path) =~= none + seq!['/'] + render_relative(path));
    lemma_segments_of_joined_texts(none, render_relative(path));
    assert(segments(none) == seq![none]);
    lemma_walk_in_two_parts(root, seq![none], segments(render_relative(path)));
    assert(seq![none].drop_last() =~= Seq::<Seq<char>>::empty());
    assert(walk(root, seq![none]) == walk_one(walk(root, seq![none].drop_last()), none));
    lemma_resolve_rendered(root, path);
    assert(root + path =~= path);
}

/// An absolute path, held as the names that lead to it from the root. The
/// path is always normal: no component is empty, `.` or `..`, and none holds
/// a separator.
#[derive(Debug)]
pub struct JotPath {
    components: Vec<String>,
}

impl View for JotPath {
    type V = Seq<Seq<char>>;

    closed spec fn view(&self) -> Seq<Seq<char>> {
        names(self.components@)
    }
}

/// Walks the segment `text[from..to]` from the position that `stack` holds.
fn step_segment(stack: &mut Vec<String>, text: &str, from: usize, to: usize)
    requires
        from <= to <= text@.len(),
    ensures
        names(final(stack)@) == walk_one(names(old(stack)@), text@.subrange(from as int, to as int)),
{
    let ghost seg = text@.subrange(from as int, to as int);
    let ghost before = names(stack@);
    let len: usize = to - from;
    if len == 0 {
    } else if len == 1 && text.get_char(from) == '.' {
        assert(is_dot(seg));
    } else if len == 2 && text.get_char(from) == '.' && text.get_char(from + 1) == '.' {
        assert(is_dot_dot(seg));
        if stack.len() > 0 {
            stack.pop();
            assert(names(stack@) =~= before.drop_last());
        }
    } else {
        assert(!is_dot(seg) && !is_dot_dot(seg)) by {
            assert(seg[0] == text@[from as int]);
            if len == 2 {
                assert(seg[1] == text@[from + 1]);
            }
        }
        let name = text.substring_char(from, to).to_owned();
        stack.push(name);
        assert(names(stack@) =~= before.push(seg));
    }
}

/// Walks the whole of `text` from the position that `stack` holds.
fn walk_text(stack: &mut Vec<String>, text: &str)
    requires
        is_normal(names(old(stack)@)),
    ensures
        names(final(stack)@) == resolve(names(old(stack)@), text@),
        is_normal(names(final(stack)@)),
{
    let ghost at = names(stack@);
    let n: usize = text.unicode_len();
    let mut start: usize = 0;
    let mut i: usize = 0;
    proof {
        assert(text@.take(0) =~= Seq::<char>::empty());
        assert(segments(text@.take(0)).drop_last() =~= Seq::<Seq<char>>::empty());
        assert(segments(text@.take(0)).last() =~= text@.subrange(0, 0));
    }
    while i < n
        invariant
            n == text@.len(),
            start <= i <= n,
            segments(text@.take(i as int)).len() >= 1,
            segments(text@.take(i as int)).last() == text@.subrange(start as int, i as int),
            forall|k: int| start <= k < i ==> text@[k] != '/',
            names(stack@) == walk(at, segments(text@.take(i as int)).drop_last()),
            is_normal(names(stack@)),
        decreases n - i,
    {
        let ghost prefix = text@.take(i as int);
        let ghost longer = text@.take(i + 1);
        let ghost before = segments(prefix);
        proof {
            assert(longer.drop_last() =~= prefix);
            assert(longer.last() == text@[i as int]);
            lemma_segments_nonempty(longer);
        }
        let c = text.get_char(i);
        if c == '/' {
            let ghost held = names(stack@);
            step_segment(stack, text, start, i);
            proof {
                let seg = text@.subrange(start as int, i as int);
                assert(segments(longer) == before.push(Seq::<char>::empty()));
                assert(segments(longer).drop_last() =~= before);
                assert(walk(at, before) == walk_one(walk(at, before.drop_last()), before.last()));
                assert(segments(longer).last() =~= text@.subrange(i + 1, i + 1));
                lemma_walk_one_normal(held, seg);
            }
            start = i + 1;
        } else {
            proof {
                assert(segments(longer) == before.drop_last().push(before.last().push(c)));
                assert(segments(longer).drop_last() =~= before.drop_last());
                assert(segments(longer).last() =~= text@.subrange(start as int, i + 1));
            }
        }
        i = i + 1;
    }
    let ghost held = names(stack@);
    step_segment(stack, text, start, n);
    proof {
        assert(text@.take(n as int) =~= text@);
        let all = segments(text@);
        assert(walk(at, all) == walk_one(walk(at, all.drop_last()), all.last()));
        lemma_walk_one_normal(held, text@.subrange(start as int, n as int));
    }
}

/// Whether `text` names an entry of a directory: not empty, not `.` or
/// `..`, and free of separators.
pub fn is_single_name(text: &str) -> (b: bool)
    ensures
        b == is_name(text@),
{
    let n: usize = text.unicode_len();
    if n == 0 {
        return false;
    }
    if n == 1 && text.get_char(0) == '.' {
        return false;
    }
    if n == 2 && text.get_char(0) == '.' && text.get_char(1) == '.' {
        return false;
    }
    let mut i: usize = 0;
    while i < n
        invariant
            i <= n,
            n == text@.len(),
            forall|k: int| 0 <= k < i ==> text@[k] != '/',
        decreases n - i,
    {
        if text.get_char(i) == '/' {
            return false;
        }
        i = i + 1;
    }
    true
}

/// A copy of a vector of strings, text for text.
fn copy_names(v: &Vec<String>) -> (r: Vec<String>)
    ensures
        names(r@) == names(v@),
{
    let mut r: Vec<String> = Vec::new();
    let mut i: usize = 0;
    while i < v.len()
        invariant
            i <= v.len(),
            r.len() == i,
            forall|k: int| 0 <= k < i ==> r@[k]@ == v@[k]@,
        decreases v.len() - i,
    {
        r.push(v[i].clone());
        i = i + 1;
    }
    assert(names(r@) =~= names(v@));
    r
}

impl JotPath {
    /// Every component names an entry.
    #[verifier::type_invariant]
    pub open spec fn well_formed(&self) -> bool {
        is_normal(self@)
    }

    /// The root of the filesystem.
    pub fn root() -> (r: JotPath)
        ensures
            r@ == Seq::<Seq<char>>::empty(),
    {
        let components: Vec<String> = Vec::new();
        assert(names(components@) =~= Seq::<Seq<char>>::empty());
        JotPath { components }
    }

    /// Reads an absolute path from its text and normalises it. A text that
    /// does not start with a separator is not absolute and gives `None`.
    pub fn new(text: &str) -> (r: Option<JotPath>)
        ensures
            r is Some <==> is_absolute(text@),
            r matches Some(p) ==> p@ == resolve(Seq::empty(), text@) && is_normal(p@),
    {
        let n: usize = text.unicode_len();
        if n == 0 || text.get_char(0) != '/' {
            return None;
        }
        let mut components: Vec<String> = Vec::new();
        assert(names(components@) =~= Seq::<Seq<char>>::empty());
        walk_text(&mut components, text);
        Some(JotPath { components })
    }

    /// The path that the text `relative` leads to from this one: each name
    /// goes one down, `..` one up, `.` and empty segments stay.
    pub fn join(&self, relative: &str) -> (r: JotPath)
        ensures
            r@ == resolve(self@, relative@),
            is_normal(r@),
    {
        proof {
            use_type_invariant(self);
        }
        let mut components = copy_names(&self.components);
        walk_text(&mut components, relative);
        JotPath { components }
    }

    /// The path one below this one, under the given name.
    pub fn child(&self, name: &str) -> (r: JotPath)
        requires
            is_name(name@),
        ensures
            r@ == self@.push(name@),
            is_normal(r@),
    {
        proof {
            use_type_invariant(self);
        }
        let mut components = copy_names(&self.components);
        components.push(name.to_owned());
        assert(names(components@) =~= self@.push(name@));
        JotPath { components }
    }

    /// The path one above this one; the root is its own parent.
    pub fn parent(&self) -> (r: JotPath)
        ensures
            r@ == parent_of(self@),
            is_normal(r@),
    {
        proof {
            use_type_invariant(self);
        }
        let mut components = copy_names(&self.components);
        if components.len() > 0 {
            components.pop();
            assert(names(components@) =~= self@.drop_last());
        }
        JotPath { components }
    }

    /// The final component; empty for the root.
    pub fn file_name(&self) -> (r: String)
        ensures
            r@ == file_name_of(self@),
            self@.len() > 0 ==> is_name(r@),
    {
        proof {
            use_type_invariant(self);
        }
        let n = self.components.len();
        if n > 0 {
            self.components[n - 1].clone()
        } else {
            String::new()
        }
    }

    /// Where this path lies after the directory that its first `depth`
    /// components lead to has been moved to `to`.
    pub fn rebase(&self, depth: usize, to: &JotPath) -> (r: JotPath)
        requires
            depth <= self@.len(),
        ensures
            r@ == moved(self@, depth as nat, to@),
            is_normal(r@),
    {
        proof {
            use_type_invariant(self);
            use_type_invariant(to);
        }
        let mut components = copy_names(&to.components);
        let mut i: usize = depth;
        assert(self@.skip(depth as int).take(0) =~= Seq::<Seq<char>>::empty());
        assert(to@ + Seq::<Seq<char>>::empty() =~= to@);
        while i < self.components.len()
            invariant
                depth <= i <= self.components.len(),
                is_normal(self@),
                is_normal(names(components@)),
                names(components@) == to@ + self@.skip(depth as int).take(i - depth),
            decreases self.components.len() - i,
        {
            let ghost held = names(components@);
            components.push(self.components[i].clone());
            proof {
                assert(names(components@) =~= held.push(self@[i as int]));
                assert(held.push(self@[i as int]) =~= to@ + self@.skip(depth as int).take(
                    i + 1 - depth,
                ));
                assert(is_name(self@[i as int]));
            }
            i = i + 1;
        }
        assert(self@.skip(depth as int).take(self@.len() - depth) =~= self@.skip(depth as int));
        JotPath { components }
    }

    /// How many components lead to this path from the root.
    pub fn depth(&self) -> (n: usize)
        ensures
            n == self@.len(),
    {
        self.components.len()
    }

    /// Whether this path is `base` or lies below it.
    pub fn starts_with(&self, base: &JotPath) -> (b: bool)
        ensures
            b == base@.is_prefix_of(self@),
    {
        if base.components.len() > self.components.len() {
            return false;
        }
        let mut i: usize = 0;
        while i < base.components.len()
            invariant
                i <= base.components.len() <= self.components.len(),
                forall|k: int| 0 <= k < i ==> self@[k] == base@[k],
            decreases base.components.len() - i,
        {
            if self.components[i] != base.components[i] {
                assert(self@[i as int] != base@[i as int]);
                return false;
            }
            i = i + 1;
        }
        assert(self@.subrange(0, base@.len() as int) =~= base@);
        true
    }

    /// The text of the path: a separator before each component, and a lone
    /// separator for the root.
    pub fn to_string(&self) -> (r: String)
        ensures
            r@ == render(self@),
            is_absolute(r@),
            resolve(Seq::empty(), r@) == self@,
    {
        let mut r = String::from_str("/");
        proof {
            use_type_invariant(self);
            lemma_render_then_read(self@);
            reveal_strlit("/");
            assert(r@ =~= seq!['/']);
        }
        let tail = join_names(&self.components, 0);
        r.append(tail.as_str());
        assert(self@.skip(0) =~= self@);
        r
    }

    /// The text of the part of this path below its first `skip` components,
    /// joined by separators; empty where nothing is left.
    pub fn relative_text(&self, skip: usize) -> (r: String)
        requires
            skip <= self@.len(),
        ensures
            r@ == render_relative(self@.skip(skip as int)),
    {
        join_names(&self.components, skip)
    }
}

/// The texts of `v[skip..]` joined by separators.
fn join_names(v: &Vec<String>, skip: usize) -> (r: String)
    requires
        skip <= v.len(),
    ensures
        r@ == render_relative(names(v@).skip(skip as int)),
{
    let ghost all = names(v@).skip(skip as int);
    let mut r = String::new();
    let mut i: usize = skip;
    proof {
        reveal_strlit("/");
        assert(all.take(0) =~= Seq::<Seq<char>>::empty());
    }
    while i < v.len()
        invariant
            skip <= i <= v.len(),
            all == names(v@).skip(skip as int),
            r@ == render_relative(all.take(i - skip)),
            "/"@ == seq!['/'],
        decreases v.len() - i,
    {
        proof {
            let done = all.take(i - skip);
            let next = all.take(i - skip + 1);
            assert(next.drop_last() =~= done);
            assert(next.last() == v@[i as int]@);
            if i > skip {
                assert(next.len() >= 2);
            } else {
                assert(next.len() == 1);
                assert(next[0] == v@[i as int]@);
                assert(done.len() == 0);
            }
        }
        if i > skip {
            r.append("/");
        }
        r.append(v[i].as_str());
        i = i + 1;
    }
    assert(all.take(v.len() - skip) =~= all);
    r
}

impl Clone for JotPath {
    fn clone(&self) -> (r: Self)
        ensures
            r@ == self@,
    {
        proof {
            use_type_invariant(self);
        }
        JotPath { components: copy_names(&self.components) }
    }
}

} // verus!
