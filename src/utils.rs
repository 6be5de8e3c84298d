use crate::error::ParseError;
use vstd::prelude::*;
use vstd::slice::slice_subrange;

verus! {

/// Index of the first occurrence of `m` in `s` at or after `i`, if any.
pub open spec fn find_from(s: Seq<u8>, i: int, m: u8) -> Option<int>
    decreases s.len() - i,
{
    if 0 <= i < s.len() {
        if s[i] == m {
            Some(i)
        } else {
            find_from(s, i + 1, m)
        }
    } else {
        None
    }
}

/// `find_from` finds the first occurrence, and only then reports none.
pub proof fn lemma_find_from(s: Seq<u8>, i: int, m: u8)
    requires
        0 <= i <= s.len(),
    ensures
        match find_from(s, i, m) {
            Some(k) => i <= k < s.len() && s[k] == m && forall|j: int| i <= j < k ==> s[j] != m,
            None => forall|j: int| i <= j < s.len() ==> s[j] != m,
        },
    decreases s.len() - i,
{
    if i < s.len() && s[i] != m {
        lemma_find_from(s, i + 1, m);
    }
}

/// Position of the first `m` in `data` at or after `start`, if any.
pub fn position_from(data: &[u8], start: usize, m: u8) -> (r: Option<usize>)
    requires
        start <= data@.len(),
    ensures
        match r {
            Some(k) => find_from(data@, start as int, m) == Some(k as int),
            None => find_from(data@, start as int, m) is None,
        },
{
    let mut i: usize = start;
    while i < data.len()
        invariant
            start <= i <= data@.len(),
            find_from(data@, start as int, m) == find_from(data@, i as int, m),
        decreases data@.len() - i,
    {
        if data[i] == m {
            return Some(i);
        }
        i = i + 1;
    }
    None
}

/// What `extract_between_pair_marks` yields on `s`: the bytes after the first
/// `left` up to the next `right`, and the bytes after that `right`.
pub open spec fn extract_spec(s: Seq<u8>, left: u8, right: u8) -> Result<
    (Seq<u8>, Seq<u8>),
    ParseError,
> {
    match find_from(s, 0, left) {
        None => Err(ParseError::NeedMoreInput),
        Some(l) => match find_from(s, l + 1, right) {
            None => Err(ParseError::NeedMoreInput),
            Some(r) => Ok((s.subrange(l + 1, r), s.subrange(r + 1, s.len() as int))),
        },
    }
}

/// Extracts the bytes framed by the first `left` marker and the `right`
/// marker after it. Returns the matched bytes first and the remainder after
/// the right marker second. Fails with `NeedMoreInput` when either marker is
/// missing, since more input could still bring it.
pub fn extract_between_pair_marks(data: &[u8], left: u8, right: u8) -> (r: Result<
    (&[u8], &[u8]),
    ParseError,
>)
    ensures
        match r {
            Ok((matched, rest)) => extract_spec(data@, left, right) == Ok::<
                (Seq<u8>, Seq<u8>),
                ParseError,
            >((matched@, rest@)),
            Err(e) => extract_spec(data@, left, right) == Err::<(Seq<u8>, Seq<u8>), ParseError>(e),
        },
{
    let n = data.len();
    let l = match position_from(data, 0, left) {
        Some(l) => l,
        None => return Err(ParseError::NeedMoreInput),
    };
    proof {
        lemma_find_from(data@, 0, left);
    }
    let r = match position_from(data, l + 1, right) {
        Some(r) => r,
        None => return Err(ParseError::NeedMoreInput),
    };
    proof {
        lemma_find_from(data@, l + 1, right);
    }
    let matched = slice_subrange(data, l + 1, r);
    let rest = slice_subrange(data, r + 1, n);
    Ok((matched, rest))
}

} // verus!
