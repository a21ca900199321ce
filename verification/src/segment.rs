//! Splitting a note's text into segments: each segment at most a given
//! number of UTF-8 bytes, greedy, and never splitting a multi-byte
//! character.  This pure function sits upstream of chain creation; its
//! output feeds the chain builder segment by segment.

use vstd::prelude::*;
use vstd::string::StrSliceExecFns;
use vstd::utf8::{encode_scalar, encode_utf8};
use crate::text::push_char;

verus! {

/// How many bytes the UTF-8 encoding of one character takes.
pub open spec fn char_len(c: char) -> nat {
    encode_scalar(c as u32).len()
}

/// How many bytes the UTF-8 encoding of a character sequence takes.
pub open spec fn bytes_len(s: Seq<char>) -> nat {
    encode_utf8(s).len()
}

/// The byte length of one character, from its scalar value.
pub fn utf8_char_len(c: char) -> (n: usize)
    ensures
        n == char_len(c),
        1 <= n <= 4,
{
    let u = c as u32;
    proof {
        vstd::utf8::char_is_scalar(c);
    }
    if u < 0x80 {
        1
    } else if u < 0x800 {
        2
    } else if u < 0x10000 {
        3
    } else {
        4
    }
}

/// The encoding of a concatenation is the concatenation of the encodings.
proof fn lemma_encode_concat(s: Seq<char>, t: Seq<char>)
    ensures
        encode_utf8(s + t) =~= encode_utf8(s) + encode_utf8(t),
    decreases s.len(),
{
    if s.len() == 0 {
        assert(s + t =~= t);
        assert(encode_utf8(s) =~= Seq::<u8>::empty());
    } else {
        assert((s + t)[0] == s[0]);
        assert((s + t).drop_first() =~= s.drop_first() + t);
        lemma_encode_concat(s.drop_first(), t);
    }
}

/// One appended character adds exactly its own bytes.
proof fn lemma_bytes_len_push(s: Seq<char>, c: char)
    ensures
        bytes_len(s.push(c)) == bytes_len(s) + char_len(c),
{
    assert(s.push(c) =~= s + seq![c]);
    lemma_encode_concat(s, seq![c]);
    assert(encode_utf8(seq![c]) =~= encode_scalar(c as u32)) by {
        assert(seq![c].drop_first() =~= Seq::<char>::empty());
        assert(encode_utf8(Seq::<char>::empty()) =~= Seq::<u8>::empty());
    }
}

/// Splits a text into segments of at most `max_bytes` UTF-8 bytes each,
/// greedily, never splitting a character.
///
/// An empty text gives one empty segment.  Otherwise every segment is
/// non-empty and within the bound, the segments joined give back the text,
/// and each segment is maximal: its first following character would not
/// have fit.
pub fn split_note_value(value: &str, max_bytes: usize) -> (r: Vec<String>)
    requires
        4 <= max_bytes,
    ensures
        value@.len() == 0 ==> r@.len() == 1 && r@[0]@ == Seq::<char>::empty(),
        value@.len() > 0 ==> {
            &&& r@.len() > 0
            &&& r@.map_values(|s: String| s@).flatten() == value@
            &&& forall|i: int|
                0 <= i < r@.len() ==> (#[trigger] r@[i])@.len() > 0 && bytes_len(r@[i]@)
                    <= max_bytes
            &&& forall|i: int|
                0 <= i < r@.len() - 1 ==> bytes_len((#[trigger] r@[i])@) + char_len(r@[i + 1]@[0])
                    > max_bytes
        },
{
    let n = value.unicode_len();
    if n == 0 {
        let mut out: Vec<String> = Vec::new();
        out.push(String::new());
        return out;
    }
    let mut done: Vec<String> = Vec::new();
    let mut current = String::new();
    let mut cur_bytes: usize = 0;
    let mut i: usize = 0;
    proof {
        assert(done@.map_values(|s: String| s@).flatten() =~= Seq::<char>::empty());
        assert(Seq::<char>::empty() + current@ =~= value@.take(0));
        assert(encode_utf8(Seq::<char>::empty()) =~= Seq::<u8>::empty());
    }
    while i < n
        invariant
            0 < n == value@.len(),
            0 <= i <= n,
            4 <= max_bytes,
            cur_bytes == bytes_len(current@),
            cur_bytes <= max_bytes,
            done@.map_values(|s: String| s@).flatten() + current@ == value@.take(i as int),
            i > 0 ==> current@.len() > 0,
            current@.len() > 0 ==> current@[0] == value@.take(i as int)[i - current@.len() as int],
            forall|k: int|
                0 <= k < done@.len() ==> (#[trigger] done@[k])@.len() > 0 && bytes_len(done@[k]@)
                    <= max_bytes,
            forall|k: int|
                0 <= k < done@.len() - 1 ==> bytes_len((#[trigger] done@[k])@) + char_len(
                    done@[k + 1]@[0],
                ) > max_bytes,
            done@.len() > 0 ==> current@.len() > 0 && bytes_len(done@[done@.len() - 1]@)
                + char_len(current@[0]) > max_bytes,
        decreases n - i,
    {
        let c = value.get_char(i);
        let ch_len = utf8_char_len(c);
        proof {
            lemma_bytes_len_push(current@, c);
            assert(value@.take(i + 1).drop_last() =~= value@.take(i as int));
            assert(value@.take(i + 1).last() == c);
        }
        if cur_bytes > max_bytes - ch_len {
            proof {
                assert(current@.len() > 0);
                done@.map_values(|s: String| s@).lemma_flatten_push(current@);
                assert(done@.push(current).map_values(|s: String| s@) =~= done@.map_values(
                    |s: String| s@,
                ).push(current@));
            }
            let finished = current;
            done.push(finished);
            current = String::new();
            cur_bytes = 0;
            proof {
                assert(encode_utf8(Seq::<char>::empty()) =~= Seq::<u8>::empty());
                lemma_bytes_len_push(current@, c);
            }
        }
        let ghost cur_before = current@;
        push_char(&mut current, c);
        cur_bytes = cur_bytes + ch_len;
        proof {
            assert(current@ == cur_before.push(c));
            assert(done@.map_values(|s: String| s@).flatten() + current@ =~= value@.take(i + 1));
            if cur_before.len() > 0 {
                assert(current@[0] == cur_before[0]);
            } else {
                assert(current@[0] == c);
            }
        }
        i += 1;
    }
    proof {
        assert(value@.take(n as int) =~= value@);
        done@.map_values(|s: String| s@).lemma_flatten_push(current@);
        assert(done@.push(current).map_values(|s: String| s@) =~= done@.map_values(
            |s: String| s@,
        ).push(current@));
    }
    done.push(current);
    proof {
        assert(done@.map_values(|s: String| s@).flatten() =~= value@);
    }
    done
}

} // verus!
