//! Reading one key's value out of a block of `KEY=VALUE` lines.

use vstd::prelude::*;
use vstd::string::*;
use crate::text::{chars_of, find_from, find_in};

verus! {

/// The value that a property block holds for `key`.
///
/// The key is looked up at its first occurrence in the block. The value
/// begins right after the next `=` that follows the key and ends before the
/// next newline after that. There is no value where the key does not occur,
/// or where the block ends before the `=` or before the closing newline.
pub open spec fn value_of(block: Seq<char>, key: Seq<char>) -> Option<Seq<char>> {
    match find_from(block, key, 0) {
        None => None,
        Some(k) => match find_from(block, seq!['='], k + key.len()) {
            None => None,
            Some(e) => match find_from(block, seq!['\n'], e + 1) {
                None => None,
                Some(n) => Some(block.subrange(e + 1, n)),
            },
        },
    }
}

/// Extracts the value of `key` from the property block `base_str`.
///
/// The value is returned as it stands in the block: it is neither trimmed
/// nor interpreted.
pub fn get_single_property(base_str: &str, key: &str) -> (r: Option<String>)
    ensures
        r.deep_view() == value_of(base_str@, key@),
{
    let block = chars_of(base_str);
    let pat = chars_of(key);
    let key_at: usize = match find_in(block.as_slice(), pat.as_slice(), 0) {
        None => { return None; },
        Some(k) => k,
    };
    proof {
        crate::text::lemma_find_from_is_first(block@, pat@, 0);
        assert(key_at + pat@.len() <= block.len());
    }
    let eq: Vec<char> = vec!['='];
    assert(eq@ =~= seq!['=']);
    let eq_at: usize = match find_in(block.as_slice(), eq.as_slice(), key_at + pat.len()) {
        None => { return None; },
        Some(e) => e,
    };
    proof {
        crate::text::lemma_find_from_is_first(block@, eq@, key_at + pat@.len());
    }
    let nl: Vec<char> = vec!['\n'];
    assert(nl@ =~= seq!['\n']);
    let end: usize = match find_in(block.as_slice(), nl.as_slice(), eq_at + 1) {
        None => { return None; },
        Some(n) => n,
    };
    proof {
        crate::text::lemma_find_from_is_first(block@, nl@, eq_at + 1);
    }
    let value = base_str.substring_char(eq_at + 1, end);
    Some(value.to_owned())
}

} // verus!
