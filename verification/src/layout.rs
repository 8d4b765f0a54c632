//! How a vault is laid out on disk: the reserved directory that holds the
//! vault's own data, and the file in it that holds the vault's record.

use crate::path::{file_name_of, is_name, JotPath};
use vstd::prelude::*;
use vstd::string::*;

verus! {

/// The name of the directory that holds a vault's own data. An entry of this
/// name is never part of the tree.
pub open spec fn reserved_name() -> Seq<char> {
    seq!['.', 'j', 'o', 't']
}

/// Whether the final component of `location` is the reserved name.
pub open spec fn is_reserved(location: Seq<Seq<char>>) -> bool {
    file_name_of(location) == reserved_name()
}

/// The name of the file, inside the reserved directory, that holds the
/// record.
pub open spec fn data_name() -> Seq<char> {
    seq!['d', 'a', 't', 'a']
}

/// Where the record of the vault at `vault` is kept.
pub open spec fn data_path_of(vault: Seq<Seq<char>>) -> Seq<Seq<char>> {
    vault.push(reserved_name()).push(data_name())
}

/// Whether `name` is the reserved name.
pub fn is_reserved_name(name: &str) -> (b: bool)
    ensures
        b == (name@ == reserved_name()),
{
    let n: usize = name.unicode_len();
    if n != 4 {
        return false;
    }
    let b = name.get_char(0) == '.' && name.get_char(1) == 'j' && name.get_char(2) == 'o'
        && name.get_char(3) == 't';
    assert(b ==> name@ =~= reserved_name());
    b
}

/// Whether the final component of `location` is the reserved name.
pub fn has_reserved_name(location: &JotPath) -> (b: bool)
    ensures
        b == is_reserved(location@),
{
    let name = location.file_name();
    is_reserved_name(name.as_str())
}

/// The path of the record of the vault at `vault_path`.
pub fn data_path(vault_path: &JotPath) -> (r: JotPath)
    ensures
        r@ == data_path_of(vault_path@),
{
    proof {
        reveal_strlit(".jot");
        reveal_strlit("data");
        assert(".jot"@ =~= reserved_name());
        assert("data"@ =~= data_name());
        assert(is_name(".jot"@));
        assert(is_name("data"@));
    }
    vault_path.child(".jot").child("data")
}

} // verus!
