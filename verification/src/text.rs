use vstd::prelude::*;
use vstd::string::StrSliceExecFns;
use vstd::string::StringExecFns;

verus! {

/// Whether `c` counts as alphabetic. Relies on `char::is_alphabetic`, whose
/// result depends on the character alone.
pub uninterp spec fn alpha_char(c: char) -> bool;

/// Relies on `char::is_alphabetic`: true exactly when the character has the
/// Unicode Alphabetic property.
#[verifier::external_body]
pub fn char_is_alphabetic(c: char) -> (r: bool)
    ensures
        r == alpha_char(c),
{
    c.is_alphabetic()
}

/// Relies on `char::from_u32`: `Some` exactly for Unicode scalar values,
/// that is code points outside the surrogate range and at most 0x10FFFF.
#[verifier::external_body]
pub fn char_from_code(u: u32) -> (r: Option<char>)
    ensures
        (0xD800 <= u <= 0xDFFF || u > 0x10FFFF) ==> r is None,
        !(0xD800 <= u <= 0xDFFF || u > 0x10FFFF) ==> r == Some(u as char),
{
    char::from_u32(u)
}

/// Relies on `String::push`: appends the given character to the end.
#[verifier::external_body]
pub fn push_char(s: &mut String, c: char)
    ensures
        final(s)@ == old(s)@.push(c),
{
    s.push(c)
}

/// The views of a sequence of character vectors.
pub open spec fn char_seqs(vs: Seq<Vec<char>>) -> Seq<Seq<char>> {
    Seq::new(vs.len(), |i: int| vs[i]@)
}

/// The views of a sequence of strings.
pub open spec fn str_seqs(vs: Seq<String>) -> Seq<Seq<char>> {
    Seq::new(vs.len(), |i: int| vs[i]@)
}

/// The characters of `s`, one code point per element.
pub fn str_chars(s: &str) -> (v: Vec<char>)
    ensures
        v@ == s@,
{
    let n: usize = s.unicode_len();
    let mut v: Vec<char> = Vec::new();
    let mut i: usize = 0;
    while i < n
        invariant
            n == s@.len(),
            i <= n,
            v@ == s@.take(i as int),
        decreases n - i,
    {
        v.push(s.get_char(i));
        i = i + 1;
        proof {
            assert(v@ =~= s@.take(i as int));
        }
    }
    proof {
        assert(s@.take(n as int) =~= s@);
    }
    v
}

/// A string holding exactly the characters of `v`.
pub fn chars_string(v: &Vec<char>) -> (s: String)
    ensures
        s@ == v@,
{
    let mut s = String::new();
    let mut i: usize = 0;
    while i < v.len()
        invariant
            i <= v@.len(),
            s@ == v@.take(i as int),
        decreases v@.len() - i,
    {
        push_char(&mut s, v[i]);
        i = i + 1;
        proof {
            assert(s@ =~= v@.take(i as int));
        }
    }
    proof {
        assert(v@.take(v@.len() as int) =~= v@);
    }
    s
}

/// The index of the last occurrence of `sep` in `s`, or -1 if there is none.
pub open spec fn last_sep(s: Seq<char>, sep: char) -> int
    decreases s.len(),
{
    if s.len() == 0 {
        -1
    } else if s.last() == sep {
        s.len() - 1
    } else {
        last_sep(s.drop_last(), sep)
    }
}

/// `s` split at every occurrence of `sep`; the separators themselves are
/// dropped, and empty pieces are kept, so the result has one piece more than
/// `s` has separators.
pub open spec fn split_char(s: Seq<char>, sep: char) -> Seq<Seq<char>>
    decreases s.len(),
{
    let i = last_sep(s, sep);
    if 0 <= i < s.len() {
        split_char(s.take(i), sep).push(s.skip(i + 1))
    } else {
        seq![s]
    }
}

proof fn lemma_last_sep_bounds(s: Seq<char>, sep: char)
    ensures
        -1 <= last_sep(s, sep) < s.len(),
    decreases s.len(),
{
    if s.len() > 0 && s.last() != sep {
        lemma_last_sep_bounds(s.drop_last(), sep);
    }
}

/// Appending a non-separator character extends the final piece.
proof fn lemma_split_push(s: Seq<char>, sep: char, c: char)
    requires
        c != sep,
    ensures
        split_char(s.push(c), sep) == split_char(s, sep).update(
            split_char(s, sep).len() - 1,
            split_char(s, sep).last().push(c),
        ),
{
    lemma_split_nonempty(s, sep);
    assert(s.push(c).drop_last() =~= s);
    assert(s.push(c).last() == c);
    let i = last_sep(s, sep);
    assert(last_sep(s.push(c), sep) == i);
    lemma_last_sep_bounds(s, sep);
    if 0 <= i < s.len() {
        assert(s.push(c).take(i) =~= s.take(i));
        assert(s.push(c).skip(i + 1) =~= s.skip(i + 1).push(c));
        assert(split_char(s.push(c), sep) =~~= split_char(s, sep).update(
            split_char(s, sep).len() - 1,
            split_char(s, sep).last().push(c),
        ));
    } else {
        assert(split_char(s.push(c), sep) == seq![s.push(c)]);
        assert(split_char(s, sep) == seq![s]);
        assert(seq![s.push(c)] =~= seq![s].update(0, s.push(c)));
    }
}

/// Appending the separator starts a fresh empty piece.
proof fn lemma_split_push_sep(s: Seq<char>, sep: char)
    ensures
        split_char(s.push(sep), sep) == split_char(s, sep).push(Seq::empty()),
{
    let t = s.push(sep);
    assert(t.last() == sep);
    assert(last_sep(t, sep) == s.len());
    assert(t.take(s.len() as int) =~= s);
    assert(t.skip(s.len() as int + 1) =~= Seq::<char>::empty());
}

/// A split is never empty.
proof fn lemma_split_nonempty(s: Seq<char>, sep: char)
    ensures
        split_char(s, sep).len() >= 1,
{
    lemma_last_sep_bounds(s, sep);
}

/// The pieces of `v` between occurrences of `sep`.
pub fn split_chars(v: &Vec<char>, sep: char) -> (r: Vec<Vec<char>>)
    ensures
        char_seqs(r@) == split_char(v@, sep),
{
    let mut acc: Vec<Vec<char>> = Vec::new();
    let mut cur: Vec<char> = Vec::new();
    let mut j: usize = 0;
    proof {
        assert(split_char(v@.take(0), sep) =~~= seq![Seq::<char>::empty()]);
        assert(char_seqs(acc@).push(cur@) =~~= split_char(v@.take(0), sep));
    }
    while j < v.len()
        invariant
            j <= v@.len(),
            char_seqs(acc@).push(cur@) == split_char(v@.take(j as int), sep),
        decreases v@.len() - j,
    {
        let c = v[j];
        proof {
            assert(v@.take(j + 1) =~= v@.take(j as int).push(v@[j as int]));
        }
        if c == sep {
            proof {
                lemma_split_push_sep(v@.take(j as int), sep);
            }
            acc.push(cur);
            cur = Vec::new();
            proof {
                assert(char_seqs(acc@).push(cur@) =~~= split_char(v@.take(j as int), sep).push(
                    Seq::<char>::empty(),
                ));
            }
        } else {
            proof {
                lemma_split_push(v@.take(j as int), sep, c);
                lemma_split_nonempty(v@.take(j as int), sep);
            }
            let ghost old_split = split_char(v@.take(j as int), sep);
            cur.push(c);
            proof {
                assert(char_seqs(acc@).push(cur@) =~~= old_split.update(
                    old_split.len() - 1,
                    old_split.last().push(c),
                ));
            }
        }
        j = j + 1;
    }
    proof {
        assert(v@.take(v@.len() as int) =~= v@);
    }
    acc.push(cur);
    proof {
        assert(char_seqs(acc@) =~~= split_char(v@, sep));
    }
    acc
}

/// The pieces of `s` between occurrences of `sep`, as strings.
pub fn split_str(s: &str, sep: char) -> (r: Vec<String>)
    ensures
        str_seqs(r@) == split_char(s@, sep),
{
    let chars = str_chars(s);
    let pieces = split_chars(&chars, sep);
    let mut r: Vec<String> = Vec::new();
    let mut i: usize = 0;
    while i < pieces.len()
        invariant
            i <= pieces@.len(),
            char_seqs(pieces@) == split_char(s@, sep),
            str_seqs(r@) == char_seqs(pieces@).take(i as int),
        decreases pieces@.len() - i,
    {
        let piece = chars_string(&pieces[i]);
        proof {
            assert(piece@ == char_seqs(pieces@)[i as int]);
        }
        let ghost old_r = r@;
        r.push(piece);
        i = i + 1;
        proof {
            assert(r@ == old_r.push(piece));
            assert(old_r.len() == i - 1) by {
                assert(str_seqs(old_r).len() == old_r.len());
                assert(char_seqs(pieces@).take(i - 1).len() == i - 1);
            }
            assert(r@.len() == i as int);
            assert forall|k: int| 0 <= k < i implies str_seqs(r@)[k] == char_seqs(pieces@).take(
                i as int,
            )[k] by {
                if k < i - 1 {
                    assert(r@[k] == old_r[k]);
                    assert(str_seqs(old_r)[k] == char_seqs(pieces@).take(i - 1)[k]);
                } else {
                    assert(r@[k] == piece);
                }
            }
            assert(str_seqs(r@) =~~= char_seqs(pieces@).take(i as int));
        }
    }
    proof {
        assert(char_seqs(pieces@).take(pieces@.len() as int) =~~= char_seqs(pieces@));
    }
    r
}

/// Whether `p` names the first characters of `s`.
pub fn str_starts_with(s: &str, p: &str) -> (b: bool)
    ensures
        b == p@.is_prefix_of(s@),
{
    let sn: usize = s.unicode_len();
    let pn: usize = p.unicode_len();
    if pn > sn {
        return false;
    }
    let mut i: usize = 0;
    while i < pn
        invariant
            sn == s@.len(),
            pn == p@.len(),
            pn <= sn,
            i <= pn,
            forall|k: int| 0 <= k < i ==> s@[k] == p@[k],
        decreases pn - i,
    {
        if s.get_char(i) != p.get_char(i) {
            return false;
        }
        i = i + 1;
    }
    proof {
        assert(p@.is_prefix_of(s@)) by {
            assert(p@ =~= s@.subrange(0, p@.len() as int));
        }
    }
    true
}

/// The decimal digit for a value below ten.
pub open spec fn dec_digit(d: nat) -> char {
    ('0' as u8 + d as u8) as char
}

/// The decimal numeral of `n`, most significant digit first.
pub open spec fn dec_digits(n: nat) -> Seq<char>
    decreases n,
{
    if n < 10 {
        seq![dec_digit(n)]
    } else {
        dec_digits(n / 10).push(dec_digit(n % 10))
    }
}

/// The decimal numeral of `n`.
pub fn dec_string(n: u64) -> (s: String)
    ensures
        s@ == dec_digits(n as nat),
    decreases n,
{
    let d: u8 = (n % 10) as u8;
    let c: char = (48u8 + d) as char;
    if n < 10 {
        let mut s = String::new();
        push_char(&mut s, c);
        proof {
            assert(s@ =~= dec_digits(n as nat));
        }
        s
    } else {
        let mut s = dec_string(n / 10);
        push_char(&mut s, c);
        proof {
            assert(s@ =~= dec_digits(n as nat));
        }
        s
    }
}

/// A string equal to `a` followed by `b`.
pub fn concat_str(a: &str, b: &str) -> (s: String)
    ensures
        s@ == a@ + b@,
{
    let mut s = a.to_owned();
    s.append(b);
    s
}

/// Every character's code point is a Unicode scalar value: at most 0x10FFFF
/// and outside the surrogate range. Stated as a lemma so that proofs about
/// quantified characters can invoke it.
pub proof fn lemma_char_bound(c: char)
    ensures
        c as u32 <= 0x10FFFF,
        !(0xD800 <= c as u32 && c as u32 <= 0xDFFF),
        c as nat == (c as u32) as nat,
{
}

/// Characters with equal code points are equal.
pub proof fn lemma_char_code_injective(a: char, b: char)
    ensures
        a as u32 == b as u32 ==> a == b,
{
}

/// Whether two strings hold the same characters.
pub fn str_eq(a: &str, b: &str) -> (r: bool)
    ensures
        r == (a@ == b@),
{
    let an: usize = a.unicode_len();
    let bn: usize = b.unicode_len();
    if an != bn {
        return false;
    }
    let mut i: usize = 0;
    while i < an
        invariant
            an == a@.len(),
            bn == b@.len(),
            an == bn,
            i <= an,
            forall|k: int| 0 <= k < i ==> a@[k] == b@[k],
        decreases an - i,
    {
        if a.get_char(i) != b.get_char(i) {
            return false;
        }
        i = i + 1;
    }
    proof {
        assert(a@ =~= b@);
    }
    true
}

} // verus!
