//! Splitting byte text into lines and fields.
//!
//! The embedding file is headerless text: rows are separated by newlines
//! (a trailing newline ends the last row rather than opening an empty one,
//! and a carriage return before a newline belongs to the separator), and
//! fields within a row are separated by commas.

use vstd::prelude::*;
use crate::field::{find_byte, lemma_find_byte, lemma_find_byte_is};

verus! {

/// ASCII code of the newline separator.
pub const NEWLINE: u8 = 10;

/// ASCII code of the carriage return.
pub const CARRIAGE_RETURN: u8 = 13;

/// ASCII code of the comma.
pub const COMMA: u8 = 44;

/// The views of a sequence of byte vectors.
pub open spec fn seq_views(vs: Seq<Vec<u8>>) -> Seq<Seq<u8>> {
    vs.map_values(|v: Vec<u8>| v@)
}

/// `s` split at every occurrence of `sep`; one part more than there are
/// separators, so the result is never empty.
pub open spec fn split_on(s: Seq<u8>, sep: u8) -> Seq<Seq<u8>>
    decreases s.len(),
    via split_on_decreases
{
    let k = find_byte(s, sep);
    if k == s.len() {
        seq![s]
    } else {
        seq![s.take(k)] + split_on(s.skip(k + 1), sep)
    }
}

#[via_fn]
proof fn split_on_decreases(s: Seq<u8>, sep: u8) {
    lemma_find_byte(s, sep);
}

/// One step of splitting: a separator-free stretch from `start` to `k`
/// makes the next part.
pub proof fn lemma_split_step(s: Seq<u8>, sep: u8, start: int, k: int)
    requires
        0 <= start <= k <= s.len(),
        forall|j: int| start <= j < k ==> s[j] != sep,
        k < s.len() ==> s[k] == sep,
    ensures
        k < s.len() ==> split_on(s.skip(start), sep) == seq![s.subrange(start, k)] + split_on(
            s.skip(k + 1),
            sep,
        ),
        k == s.len() ==> split_on(s.skip(start), sep) == seq![s.subrange(start, k)],
{
    let t = s.skip(start);
    assert forall|i: int| 0 <= i < k - start implies t[i] != sep by {
        assert(t[i] == s[start + i]);
    }
    if k < s.len() {
        assert(t[k - start] == s[k]);
    }
    lemma_find_byte_is(t, sep, k - start);
    if k < s.len() {
        assert(t.take(k - start) =~= s.subrange(start, k));
        assert(t.skip(k - start + 1) =~= s.skip(k + 1));
    } else {
        assert(t =~= s.subrange(start, k));
    }
}

/// Splits `s` at every occurrence of `sep`.
pub fn split_bytes(s: &Vec<u8>, sep: u8) -> (r: Vec<Vec<u8>>)
    ensures
        seq_views(r@) == split_on(s@, sep),
{
    let mut parts: Vec<Vec<u8>> = Vec::new();
    let mut cur: Vec<u8> = Vec::new();
    let ghost mut start: int = 0;
    let mut i: usize = 0;
    proof {
        assert(s@.skip(0) =~= s@);
        assert(seq_views(parts@) =~= Seq::<Seq<u8>>::empty());
        assert(seq_views(parts@) + split_on(s@, sep) =~= split_on(s@, sep));
        assert(cur@ =~= s@.subrange(0, 0));
    }
    while i < s.len()
        invariant
            0 <= start <= i as int <= s@.len(),
            cur@ == s@.subrange(start, i as int),
            forall|j: int| start <= j < i as int ==> s@[j] != sep,
            split_on(s@, sep) == seq_views(parts@) + split_on(s@.skip(start), sep),
        decreases s@.len() - i,
    {
        if s[i] == sep {
            proof {
                lemma_split_step(s@, sep, start, i as int);
            }
            let ghost old_parts = parts@;
            parts.push(cur);
            cur = Vec::new();
            proof {
                assert(seq_views(parts@) =~= seq_views(old_parts).push(s@.subrange(
                    start,
                    i as int,
                )));
                assert(seq_views(old_parts).push(s@.subrange(start, i as int)) =~= seq_views(
                    old_parts,
                ) + seq![s@.subrange(start, i as int)]);
                start = i as int + 1;
                assert(seq_views(parts@) + split_on(s@.skip(start), sep) =~= split_on(s@, sep));
                assert(cur@ =~= s@.subrange(start, i as int + 1));
            }
        } else {
            cur.push(s[i]);
            proof {
                assert(cur@ =~= s@.subrange(start, i as int + 1));
            }
        }
        i += 1;
    }
    proof {
        lemma_split_step(s@, sep, start, s@.len() as int);
        assert(cur@ == s@.subrange(start, s@.len() as int));
    }
    let ghost old_parts = parts@;
    parts.push(cur);
    proof {
        assert(seq_views(parts@) =~= seq_views(old_parts) + split_on(s@.skip(start), sep));
        assert(seq_views(parts@) =~= split_on(s@, sep));
    }
    parts
}

/// `l` with one trailing carriage return removed, if it has one.
pub open spec fn strip_cr(l: Seq<u8>) -> Seq<u8> {
    if l.len() > 0 && l[l.len() - 1] == CARRIAGE_RETURN {
        l.drop_last()
    } else {
        l
    }
}

/// The lines of the file: the text split at newlines, without the empty
/// part that a trailing newline would open, and with a carriage return
/// before each newline treated as part of the separator.
pub open spec fn lines_of(c: Seq<u8>) -> Seq<Seq<u8>> {
    let raw = split_on(c, NEWLINE);
    let trimmed = if raw.len() > 0 && raw[raw.len() - 1].len() == 0 {
        raw.drop_last()
    } else {
        raw
    };
    trimmed.map_values(|l: Seq<u8>| strip_cr(l))
}

/// Splits the file content into its lines.
pub fn split_lines(content: &Vec<u8>) -> (r: Vec<Vec<u8>>)
    ensures
        seq_views(r@) == lines_of(content@),
{
    let mut parts = split_bytes(content, NEWLINE);
    let ghost raw = seq_views(parts@);
    let n = parts.len();
    if n > 0 && parts[n - 1].len() == 0 {
        parts.pop();
        proof {
            assert(seq_views(parts@) =~= raw.drop_last());
        }
    }
    let ghost trimmed = seq_views(parts@);
    let mut out: Vec<Vec<u8>> = Vec::new();
    let mut k: usize = 0;
    while k < parts.len()
        invariant
            k <= parts@.len(),
            out@.len() == k,
            trimmed == seq_views(parts@),
            forall|j: int| 0 <= j < k ==> out@[j]@ == strip_cr(#[trigger] trimmed[j]),
        decreases parts@.len() - k,
    {
        let row: &Vec<u8> = &parts[k];
        let m = row.len();
        let keep: usize = if m > 0 && row[m - 1] == CARRIAGE_RETURN {
            m - 1
        } else {
            m
        };
        let mut line: Vec<u8> = Vec::new();
        let mut t: usize = 0;
        while t < keep
            invariant
                t <= keep <= row@.len(),
                line@ == row@.subrange(0, t as int),
            decreases keep - t,
        {
            line.push(row[t]);
            proof {
                assert(line@ =~= row@.subrange(0, t as int + 1));
            }
            t += 1;
        }
        proof {
            assert(trimmed[k as int] == row@);
            if m > 0 && row@[m - 1] == CARRIAGE_RETURN {
                assert(line@ =~= row@.drop_last());
            } else {
                assert(line@ =~= row@);
            }
        }
        out.push(line);
        k += 1;
    }
    proof {
        assert(seq_views(out@) =~= lines_of(content@));
    }
    out
}

} // verus!
