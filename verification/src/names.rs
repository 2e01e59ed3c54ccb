//! Validation of `label@space` names handed to the command-line tools.
use vstd::prelude::*;

verus! {

use vstd::string::StrSliceExecFns;

/// How many separator characters a name holds.
pub open spec fn at_count(s: Seq<char>) -> int
    decreases s.len(),
{
    if s.len() == 0 {
        0
    } else {
        at_count(s.drop_last()) + if s.last() == '@' {
            1int
        } else {
            0int
        }
    }
}

/// `idx` is the first separator of `s`.
pub open spec fn splits_at(s: Seq<char>, idx: int) -> bool {
    &&& 0 <= idx < s.len()
    &&& s[idx] == '@'
    &&& forall|k: int| 0 <= k < idx ==> s[k] != '@'
}

/// A lowercase ASCII letter.
pub open spec fn lowercase_alpha(c: char) -> bool {
    'a' <= c <= 'z'
}

/// A valid label: lowercase ASCII letters only.
pub open spec fn valid_label(s: Seq<char>) -> bool {
    forall|i: int| 0 <= i < s.len() ==> lowercase_alpha(#[trigger] s[i])
}

/// Splits a name of the form `label@space` at its separator. A name
/// without exactly one separator has no parse.
pub fn parse_name(subspace: &str) -> (r: Option<(String, String)>)
    ensures
        (r is Some) == (at_count(subspace@) == 1),
        r matches Some(parts) ==> exists|idx: int|
            #[trigger] splits_at(subspace@, idx) && parts.0@ == subspace@.take(idx) && parts.1@
                == subspace@.skip(idx + 1),
{
    let len = subspace.unicode_len();
    let mut at_index: usize = 0;
    let mut count: usize = 0;
    let mut i: usize = 0;
    while i < len
        invariant
            len == subspace@.len(),
            0 <= i <= len,
            count <= i,
            count == at_count(subspace@.take(i as int)),
            count == 0 ==> forall|k: int| 0 <= k < i ==> subspace@[k] != '@',
            count > 0 ==> at_index < i && subspace@[at_index as int] == '@' && (forall|k: int|
                0 <= k < at_index ==> subspace@[k] != '@'),
        decreases len - i,
    {
        let c = subspace.get_char(i);
        if c == '@' {
            if count == 0 {
                at_index = i;
            }
            count += 1;
        }
        proof {
            assert(subspace@.take((i + 1) as int).drop_last() =~= subspace@.take(i as int));
            assert(subspace@.take((i + 1) as int).last() == subspace@[i as int]);
        }
        i += 1;
    }
    proof {
        assert(subspace@.take(len as int) =~= subspace@);
    }
    if count != 1 {
        return None;
    }
    let label = subspace.substring_char(0, at_index);
    let space = subspace.substring_char(at_index + 1, len);
    proof {
        assert(splits_at(subspace@, at_index as int));
        assert(label@ =~= subspace@.take(at_index as int));
        assert(space@ =~= subspace@.skip(at_index + 1));
    }
    Some((label.to_owned(), space.to_owned()))
}

/// Whether every character of the label is a lowercase ASCII letter.
pub fn is_valid_label(s: &str) -> (r: bool)
    ensures
        r == valid_label(s@),
{
    let len = s.unicode_len();
    let mut i: usize = 0;
    while i < len
        invariant
            len == s@.len(),
            0 <= i <= len,
            forall|k: int| 0 <= k < i ==> lowercase_alpha(#[trigger] s@[k]),
        decreases len - i,
    {
        let c = s.get_char(i);
        if c < 'a' || c > 'z' {
            return false;
        }
        i += 1;
    }
    true
}

/// Rejection of a `label@space` name.
#[derive(Debug, Clone, Copy, PartialEq, Eq, Structural)]
pub enum NameError {
    /// Not of the form `label@space`.
    InvalidName,
    /// The space label is not lowercase ASCII letters.
    InvalidSpaceLabel,
    /// The subspace label is not lowercase ASCII letters.
    InvalidSubspaceLabel,
}

/// Parses and validates a `label@space` name: exactly one separator, and
/// both parts lowercase ASCII labels. The space label is checked first.
pub fn verify_name(subspace: &str) -> (r: Result<(String, String), NameError>)
    ensures
        (r == Err::<(String, String), NameError>(NameError::InvalidName)) == (at_count(subspace@)
            != 1),
        r matches Ok(parts) ==> exists|idx: int|
            #[trigger] splits_at(subspace@, idx) && parts.0@ == subspace@.take(idx) && parts.1@
                == subspace@.skip(idx + 1) && valid_label(parts.0@) && valid_label(parts.1@),
        r == Err::<(String, String), NameError>(NameError::InvalidSpaceLabel) ==> exists|idx: int|
            #[trigger] splits_at(subspace@, idx) && !valid_label(subspace@.skip(idx + 1)),
        r == Err::<(String, String), NameError>(NameError::InvalidSubspaceLabel) ==> exists|
            idx: int,
        |
            #[trigger] splits_at(subspace@, idx) && valid_label(subspace@.skip(idx + 1))
                && !valid_label(subspace@.take(idx)),
{
    let parts = match parse_name(subspace) {
        Some(parts) => parts,
        None => {
            return Err(NameError::InvalidName);
        },
    };
    let (label, space) = parts;
    if !is_valid_label(space.as_str()) {
        return Err(NameError::InvalidSpaceLabel);
    }
    if !is_valid_label(label.as_str()) {
        return Err(NameError::InvalidSubspaceLabel);
    }
    Ok((label, space))
}

} // verus!
