use crate::ops::{ops_view, Op, OpV};
use vstd::prelude::*;

verus! {

/// Whether a character counts as token-separating whitespace: the
/// Unicode White_Space property, a fixed set of 25 code points, written
/// out.
pub open spec fn is_space(c: char) -> bool {
    let n = c as u32;
    (0x09 <= n && n <= 0x0D) || n == 0x20 || n == 0x85 || n == 0xA0 || n == 0x1680 || (0x2000 <= n
        && n <= 0x200A) || n == 0x2028 || n == 0x2029 || n == 0x202F || n == 0x205F || n == 0x3000
}

/// Relies on char::is_whitespace: true exactly of the characters with
/// the Unicode White_Space property, the set `is_space` writes out.
#[verifier::external_body]
fn char_is_space(c: char) -> (r: bool)
    ensures
        r == is_space(c),
{
    c.is_whitespace()
}

/// The whitespace-separated words of `cur + s`, where `cur` is a word
/// prefix read so far: a word ends at each separator or at the end of the
/// text, and separators themselves contribute nothing.
pub open spec fn words_rec(s: Seq<char>, cur: Seq<char>) -> Seq<Seq<char>>
    decreases s.len(),
{
    if s.len() == 0 {
        if cur.len() == 0 {
            seq![]
        } else {
            seq![cur]
        }
    } else if is_space(s[0]) {
        if cur.len() == 0 {
            words_rec(s.skip(1), seq![])
        } else {
            seq![cur] + words_rec(s.skip(1), seq![])
        }
    } else {
        words_rec(s.skip(1), cur.push(s[0]))
    }
}

/// The whitespace-separated words of a source text, in order.
pub open spec fn words_of(s: Seq<char>) -> Seq<Seq<char>> {
    words_rec(s, seq![])
}

/// The keyword table: each recognized word maps to its fixed operation,
/// and any other word maps to a push of the word itself, unchanged.
pub open spec fn parse_word_spec(w: Seq<char>) -> OpV {
    if w == "+"@ {
        OpV::Add
    } else if w == "-"@ {
        OpV::Sub
    } else if w == "."@ {
        OpV::Print
    } else if w == "="@ {
        OpV::Equal
    } else if w == "*"@ {
        OpV::Mul
    } else if w == "/"@ {
        OpV::Div
    } else if w == "if"@ {
        OpV::If
    } else if w == "else"@ {
        OpV::Else
    } else if w == "end"@ {
        OpV::End
    } else if w == "nop"@ {
        OpV::Nop
    } else {
        OpV::Push(w)
    }
}

/// The instruction sequence of a source text: its words, in order, each
/// mapped independently by the keyword table.
pub open spec fn lower_spec(s: Seq<char>) -> Seq<OpV> {
    words_of(s).map_values(|w: Seq<char>| parse_word_spec(w))
}

/// Lowering is insensitive to how the source spells its whitespace: two
/// sources with the same words produce the same instruction sequence.
pub proof fn lemma_whitespace_insensitive(s1: Seq<char>, s2: Seq<char>)
    requires
        words_of(s1) == words_of(s2),
    ensures
        lower_spec(s1) == lower_spec(s2),
{
}

/// A source text made of separators alone holds no word at all: only a
/// word prefix already read survives it.
proof fn lemma_words_rec_blank(s: Seq<char>, cur: Seq<char>)
    requires
        forall|i: int| 0 <= i < s.len() ==> is_space(s[i]),
        cur.len() == 0,
    ensures
        words_rec(s, cur) == Seq::<Seq<char>>::empty(),
    decreases s.len(),
{
    if s.len() == 0 {
        assert(words_rec(s, cur) =~= Seq::<Seq<char>>::empty());
    } else {
        lemma_words_rec_blank(s.skip(1), seq![]);
    }
}

/// An empty or all-whitespace source lowers to the empty instruction
/// sequence.
pub proof fn lemma_blank_source(s: Seq<char>)
    requires
        forall|i: int| 0 <= i < s.len() ==> is_space(s[i]),
    ensures
        lower_spec(s) == Seq::<OpV>::empty(),
{
    lemma_words_rec_blank(s, seq![]);
    assert(Seq::<Seq<char>>::empty().map_values(|w: Seq<char>| parse_word_spec(w))
        =~= Seq::<OpV>::empty());
}

proof fn lemma_words_rec_split(a: Seq<char>, c: char, b: Seq<char>, cur: Seq<char>)
    requires
        is_space(c),
    ensures
        words_rec(a + seq![c] + b, cur) == words_rec(a, cur) + words_of(b),
    decreases a.len(),
{
    let s = a + seq![c] + b;
    if a.len() == 0 {
        assert(s.len() == 1 + b.len());
        assert(s[0] == c);
        assert(s.skip(1) =~= b);
        if cur.len() == 0 {
            assert(words_rec(s, cur) == words_of(b));
            assert(words_rec(a, cur) + words_of(b) =~= words_of(b));
        } else {
            assert(words_rec(s, cur) == seq![cur] + words_of(b));
            assert(words_rec(a, cur) =~= seq![cur]);
        }
    } else {
        assert(s[0] == a[0]);
        assert(s.skip(1) =~= a.skip(1) + seq![c] + b);
        if is_space(a[0]) {
            if cur.len() == 0 {
                lemma_words_rec_split(a.skip(1), c, b, seq![]);
            } else {
                lemma_words_rec_split(a.skip(1), c, b, seq![]);
                assert(seq![cur] + (words_rec(a.skip(1), seq![]) + words_of(b)) =~= (seq![cur]
                    + words_rec(a.skip(1), seq![])) + words_of(b));
            }
        } else {
            lemma_words_rec_split(a.skip(1), c, b, cur.push(a[0]));
        }
    }
}

/// Joining two sources with any single whitespace character lowers to
/// the concatenation of their instruction sequences; in particular, which
/// separator stands between two words does not matter.
pub proof fn lemma_lower_split(a: Seq<char>, c: char, b: Seq<char>)
    requires
        is_space(c),
    ensures
        lower_spec(a + seq![c] + b) == lower_spec(a) + lower_spec(b),
{
    lemma_words_rec_split(a, c, b, seq![]);
    assert((words_of(a) + words_of(b)).map_values(|w: Seq<char>| parse_word_spec(w)) =~= words_of(
        a,
    ).map_values(|w: Seq<char>| parse_word_spec(w)) + words_of(b).map_values(
        |w: Seq<char>| parse_word_spec(w),
    ));
}

/// Character-for-character equality of two string slices.
fn str_eq(a: &str, b: &str) -> (r: bool)
    ensures
        r == (a@ == b@),
{
    let a_len = a.unicode_len();
    let b_len = b.unicode_len();
    if a_len != b_len {
        return false;
    }
    let mut i: usize = 0;
    while i < a_len
        invariant
            i <= a_len,
            a_len == a@.len(),
            b_len == b@.len(),
            a_len == b_len,
            forall|j: int| 0 <= j < i ==> a@[j] == b@[j],
        decreases a_len - i,
    {
        if a.get_char(i) != b.get_char(i) {
            return false;
        }
        i += 1;
    }
    proof {
        assert(a@ =~= b@);
    }
    true
}

/// Maps one word to its operation by the fixed keyword table; an
/// unrecognized word becomes a push literal carrying the word verbatim.
/// The mapping is exhaustive: no word is rejected.
pub fn parse_word_to_op(word: &str) -> (op: Op)
    ensures
        op@ == parse_word_spec(word@),
{
    if str_eq(word, "+") {
        Op::Add
    } else if str_eq(word, "-") {
        Op::Sub
    } else if str_eq(word, ".") {
        Op::Print
    } else if str_eq(word, "=") {
        Op::Equal
    } else if str_eq(word, "*") {
        Op::Mul
    } else if str_eq(word, "/") {
        Op::Div
    } else if str_eq(word, "if") {
        Op::If
    } else if str_eq(word, "else") {
        Op::Else
    } else if str_eq(word, "end") {
        Op::End
    } else if str_eq(word, "nop") {
        Op::Nop
    } else {
        Op::Push(word.to_owned())
    }
}

/// Splits the source text into whitespace-separated words and lowers each
/// word to one operation, in source order. Total: every text lowers.
pub fn tokenize(src: &str) -> (ops: Vec<Op>)
    ensures
        ops_view(ops@) == lower_spec(src@),
{
    let n = src.unicode_len();
    let mut ops: Vec<Op> = Vec::new();
    let ghost mut done: Seq<Seq<char>> = seq![];
    let mut start: usize = 0;
    let mut i: usize = 0;
    proof {
        assert(src@.skip(0) =~= src@);
        assert(src@.subrange(0, 0) =~= Seq::<char>::empty());
        assert(Seq::<char>::empty() =~= seq![]);
        assert(Seq::<Seq<char>>::empty() + words_rec(src@, seq![]) =~= words_rec(src@, seq![]));
    }
    while i < n
        invariant
            start <= i <= n,
            n == src@.len(),
            ops_view(ops@) == done.map_values(|w: Seq<char>| parse_word_spec(w)),
            words_of(src@) == done + words_rec(
                src@.skip(i as int),
                src@.subrange(start as int, i as int),
            ),
        decreases n - i,
    {
        let ghost cur = src@.subrange(start as int, i as int);
        proof {
            assert(src@.skip(i as int)[0] == src@[i as int]);
            assert(src@.skip(i as int).skip(1) =~= src@.skip(i as int + 1));
        }
        let c = src.get_char(i);
        if char_is_space(c) {
            if start < i {
                let word = src.substring_char(start, i);
                let op = parse_word_to_op(word);
                ops.push(op);
                proof {
                    assert(ops@.map_values(|o: Op| o@) =~= done.map_values(
                        |w: Seq<char>| parse_word_spec(w),
                    ).push(parse_word_spec(cur)));
                    done = done.push(cur);
                    assert(done.map_values(|w: Seq<char>| parse_word_spec(w)) =~= done.drop_last()
                        .map_values(|w: Seq<char>| parse_word_spec(w)).push(parse_word_spec(cur)));
                    assert(done =~= done.drop_last() + seq![cur]);
                    assert(done.drop_last() + (seq![cur] + words_rec(
                        src@.skip(i as int + 1),
                        seq![],
                    )) =~= done + words_rec(src@.skip(i as int + 1), seq![]));
                }
            }
            start = i + 1;
            proof {
                assert(src@.subrange(start as int, start as int) =~= Seq::<char>::empty());
                assert(seq![] =~= Seq::<char>::empty());
            }
        } else {
            proof {
                assert(cur.push(src@[i as int]) =~= src@.subrange(start as int, i as int + 1));
            }
        }
        i += 1;
    }
    proof {
        assert(src@.skip(n as int).len() == 0);
    }
    if start < n {
        let word = src.substring_char(start, n);
        let op = parse_word_to_op(word);
        ops.push(op);
        proof {
            let ghost cur = src@.subrange(start as int, n as int);
            assert(ops@.map_values(|o: Op| o@) =~= done.map_values(
                |w: Seq<char>| parse_word_spec(w),
            ).push(parse_word_spec(cur)));
            assert(words_of(src@) == done + seq![cur]);
            assert((done + seq![cur]).map_values(|w: Seq<char>| parse_word_spec(w)) =~= done
                .map_values(|w: Seq<char>| parse_word_spec(w)).push(parse_word_spec(cur)));
        }
    } else {
        proof {
            assert(src@.subrange(start as int, n as int).len() == 0);
            assert(words_of(src@) =~= done);
        }
    }
    ops
}

} // verus!
