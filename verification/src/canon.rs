//! The hostname canonicalizer: lowercases ASCII and accepts exactly the
//! names that are safe to use as a relative filesystem path component.
//!
//! A canonical name is 1 to 254 bytes of [a-z0-9.-] in which no label
//! (position 0, or the byte right after a '.') starts with '.' or '-',
//! and which does not end with '.'. This rules out "", ".", "..", leading
//! or trailing dots, and every byte that could mean path traversal.

use vstd::prelude::*;

verus! {

/// ASCII lowercase folding of one byte.
pub open spec fn lower(b: u8) -> u8 {
    if 65 <= b && b <= 90 {
        (b + 32) as u8
    } else {
        b
    }
}

/// The byte sequence with every byte lowercase-folded.
pub open spec fn lower_seq(s: Seq<u8>) -> Seq<u8> {
    s.map(|i: int, b: u8| lower(b))
}

/// Bytes a canonical name may contain: a-z, 0-9, '-', '.'.
pub open spec fn allowed_byte(b: u8) -> bool {
    (97 <= b && b <= 122) || (48 <= b && b <= 57) || b == 45 || b == 46
}

/// A label boundary: position 0, or the position right after a '.'.
pub open spec fn label_boundary(t: Seq<u8>, i: int) -> bool {
    i == 0 || t[i - 1] == 46
}

/// Whether an already-lowercased byte sequence is a canonical name.
pub open spec fn valid_canon(t: Seq<u8>) -> bool {
    &&& t.len() >= 1
    &&& forall|i: int| 0 <= i < t.len() ==> allowed_byte(#[trigger] t[i])
    &&& forall|i: int|
        0 <= i < t.len() && label_boundary(t, i) ==> #[trigger] t[i] != 46 && t[i] != 45
    &&& t[t.len() - 1] != 46
}

/// What canonicalization yields: the lowercase folding of the input when
/// that folding is a canonical name, nothing otherwise.
pub open spec fn canon(s: Seq<u8>) -> Option<Seq<u8>> {
    if valid_canon(lower_seq(s)) {
        Some(lower_seq(s))
    } else {
        None
    }
}

/// Lowercase-folds and validates a hostname, returning its canonical form,
/// or `None` when the name cannot be used as a backend path component.
pub fn canonicalize(name: &[u8]) -> (r: Option<Vec<u8>>)
    ensures
        match r {
            Some(v) => canon(name@) == Some(v@),
            None => canon(name@) is None,
        },
{
    let ghost t = lower_seq(name@);
    assert(t.len() == name@.len());
    let mut out: Vec<u8> = Vec::new();
    let mut start_of_label = true;
    let mut i: usize = 0;
    while i < name.len()
        invariant
            0 <= i <= name@.len(),
            name@.len() == t.len(),
            t == lower_seq(name@),
            out@.len() == i,
            forall|j: int| 0 <= j < i ==> out@[j] == #[trigger] t[j],
            start_of_label == label_boundary(t, i as int),
            forall|j: int| 0 <= j < i ==> allowed_byte(#[trigger] t[j]),
            forall|j: int|
                0 <= j < i && label_boundary(t, j) ==> #[trigger] t[j] != 46 && t[j] != 45,
        decreases name@.len() - i,
    {
        let b0 = name[i];
        let b = if 65 <= b0 && b0 <= 90 {
            b0 + 32
        } else {
            b0
        };
        assert(b == t[i as int]);
        if start_of_label && (b == 45 || b == 46) {
            assert(!valid_canon(t));
            return None;
        }
        let ok = (97 <= b && b <= 122) || (48 <= b && b <= 57) || b == 45 || b == 46;
        if !ok {
            assert(!allowed_byte(t[i as int]));
            assert(!valid_canon(t));
            return None;
        }
        start_of_label = b == 46;
        out.push(b);
        i = i + 1;
    }
    if start_of_label {
        // the name is empty, or its last byte is a '.'
        assert(!valid_canon(t));
        return None;
    }
    proof {
        assert(out@ =~= t);
        assert(valid_canon(t));
    }
    Some(out)
}

/// Canonicalization rejects every hostname that would come out empty,
/// begin with '.' or '-', end with '.', contain "..", have a '-' right
/// after a '.', or contain a byte outside [a-z0-9.-] after folding.
pub proof fn lemma_canon_rejects(s: Seq<u8>)
    requires
        s.len() == 0 || lower(s[0]) == 46 || lower(s[0]) == 45 || lower(s[s.len() - 1]) == 46
            || (exists|i: int| 0 < i < s.len() && s[i - 1] == 46 && (#[trigger] lower(s[i]) == 46 || lower(s[i]) == 45))
            || (exists|i: int| 0 <= i < s.len() && !allowed_byte(#[trigger] lower(s[i]))),
    ensures
        canon(s) is None,
{
    let t = lower_seq(s);
    assert(t.len() == s.len());
    if s.len() == 0 {
    } else if lower(s[0]) == 46 || lower(s[0]) == 45 {
        assert(t[0] == lower(s[0]));
        assert(label_boundary(t, 0));
        assert(!valid_canon(t));
    } else if lower(s[s.len() - 1]) == 46 {
        assert(t[t.len() - 1] == 46);
        assert(!valid_canon(t));
    } else if exists|i: int|
        0 < i < s.len() && s[i - 1] == 46 && (#[trigger] lower(s[i]) == 46 || lower(s[i]) == 45) {
        let i = choose|i: int|
            0 < i < s.len() && s[i - 1] == 46 && (#[trigger] lower(s[i]) == 46 || lower(s[i])
                == 45);
        assert(t[i - 1] == lower(s[i - 1]));
        assert(t[i - 1] == 46);
        assert(label_boundary(t, i));
        assert(t[i] == lower(s[i]));
        assert(t[i] == 46 || t[i] == 45);
        assert(!valid_canon(t));
    } else {
        let i = choose|i: int| 0 <= i < s.len() && !allowed_byte(#[trigger] lower(s[i]));
        assert(t[i] == lower(s[i]));
        assert(!allowed_byte(t[i]));
        assert(!valid_canon(t));
    }
}

/// Canonicalization is a fixed point: running it on its own output
/// changes nothing.
pub proof fn lemma_canon_idempotent(s: Seq<u8>, c: Seq<u8>)
    requires
        canon(s) == Some(c),
    ensures
        canon(c) == Some(c),
{
    let t = lower_seq(s);
    assert(c == t);
    assert forall|i: int| 0 <= i < c.len() implies #[trigger] lower_seq(c)[i] == c[i] by {
        assert(allowed_byte(c[i]));
        assert(lower(c[i]) == c[i]);
    }
    assert(lower_seq(c) =~= c);
}

} // verus!
