//! Which argument types each geometry function accepts.
//!
//! Names are normalised by dropping a leading `Const`, because a mutable
//! primitive converts implicitly to its const counterpart wherever one is
//! expected.

use vstd::prelude::*;
use crate::text::{is_prefix, str_eq, starts_with};

verus! {

/// The class name with any leading `Const` removed.
pub open spec fn normalised(name: Seq<char>) -> Seq<char> {
    if is_prefix("Const"@, name) { name.subrange(5, name.len() as int) } else { name }
}

/// The class name with any leading `Const` removed.
pub fn normalise(class_name: &str) -> (r: &str)
    ensures
        r@ == normalised(class_name@),
{
    proof {
        reveal_strlit("Const");
    }
    if starts_with(class_name, "Const") {
        class_name.substring_char(5, class_name.unicode_len())
    } else {
        class_name
    }
}

/// Whether a single-argument call is registered for this type.
pub fn accepts_unary(allowed: &[&str], class_name: &str) -> (r: bool)
    ensures
        r == exists|i: int| 0 <= i < allowed@.len() && (#[trigger] allowed@[i])@ == normalised(class_name@),
{
    let name = normalise(class_name);
    let mut i: usize = 0;
    while i < allowed.len()
        invariant
            i <= allowed@.len(),
            name@ == normalised(class_name@),
            forall|j: int| 0 <= j < i ==> (#[trigger] allowed@[j])@ != name@,
        decreases allowed@.len() - i,
    {
        if str_eq(allowed[i], name) {
            return true;
        }
        i = i + 1;
    }
    false
}

/// Whether a two-argument call is registered for this pair.
pub fn accepts_binary(allowed: &[(&str, &str)], first: &str, second: &str) -> (r: bool)
    ensures
        r == exists|i: int|
            0 <= i < allowed@.len() && (#[trigger] allowed@[i]).0@ == normalised(first@) && allowed@[i].1@
                == normalised(second@),
{
    let a = normalise(first);
    let b = normalise(second);
    let mut i: usize = 0;
    while i < allowed.len()
        invariant
            i <= allowed@.len(),
            a@ == normalised(first@),
            b@ == normalised(second@),
            forall|j: int| 0 <= j < i ==> !((#[trigger] allowed@[j]).0@ == a@ && allowed@[j].1@ == b@),
        decreases allowed@.len() - i,
    {
        let (x, y) = allowed[i];
        if str_eq(x, a) && str_eq(y, b) {
            return true;
        }
        i = i + 1;
    }
    false
}

/// Resolves a possibly negative index against `len`, counting from the end
/// when negative; `None` when the result falls outside `0..len`.
pub fn resolve_index(index: isize, len: usize) -> (r: Option<usize>)
    requires
        len <= isize::MAX,
    ensures
        ({
            let resolved: int = if index < 0 { index + len } else { index as int };
            &&& r is Some <==> 0 <= resolved < len
            &&& r matches Some(k) ==> k == resolved
        }),
{
    let n = len as isize;
    if index < 0 {
        if index + n < 0 {
            None
        } else {
            Some((index + n) as usize)
        }
    } else if (index as usize) >= len {
        None
    } else {
        Some(index as usize)
    }
}

} // verus!
