use vstd::prelude::*;

use crate::collections::LineRange;
use crate::text::{
    alpha_char, char_from_code, char_is_alphabetic, char_seqs, lemma_char_bound,
    lemma_char_code_injective, split_char, split_chars, str_chars,
};

verus! {

/// One above the largest Unicode code point; numeric sections are capped
/// here, which ignores values no character can have.
pub const CODE_CAP: u64 = 0x110000;

/// Failure of boundary-definition parsing.
#[derive(Debug, Clone, Copy, PartialEq, Eq, Structural)]
pub enum KeywordError {
    ContainsTripleCommasPlzNo,
}

/// Whether `s` holds three consecutive separators, the one malformed shape
/// the grammar rejects.
pub open spec fn has_triple_comma(s: Seq<char>) -> bool {
    exists|i: int|
        #![trigger s[i]]
        0 <= i && i + 3 <= s.len() && s[i] == ',' && s[i + 1] == ',' && s[i + 2] == ','
}

/// Whether `c` is an ASCII decimal digit.
pub open spec fn is_dec_digit(c: char) -> bool {
    '0' <= c && c <= '9'
}

/// The value of an ASCII decimal digit.
pub open spec fn digit_val(c: char) -> nat {
    (c as int - '0' as int) as nat
}

/// Whether `s` is a non-empty run of ASCII decimal digits.
pub open spec fn all_digits(s: Seq<char>) -> bool {
    s.len() > 0 && forall|i: int| 0 <= i < s.len() ==> is_dec_digit(#[trigger] s[i])
}

/// The numeric value of a digit run, most significant digit first.
pub open spec fn digits_val(s: Seq<char>) -> nat
    decreases s.len(),
{
    if s.len() == 0 {
        0
    } else {
        digits_val(s.drop_last()) * 10 + digit_val(s.last())
    }
}

/// `digits_val` with values no character can have collapsed to `CODE_CAP`.
pub open spec fn capped_val(n: nat) -> nat {
    if n >= CODE_CAP {
        CODE_CAP as nat
    } else {
        n
    }
}

/// Whether `s` is a non-empty run of alphabetic characters.
pub open spec fn all_alpha(s: Seq<char>) -> bool {
    s.len() > 0 && forall|i: int| 0 <= i < s.len() ==> alpha_char(#[trigger] s[i])
}

/// Whether `sec` splits at `d` into `<digits>-<digits>`.
pub open spec fn range_split_at(sec: Seq<char>, d: int) -> bool {
    1 <= d && d + 1 < sec.len() && sec[d] == '-' && all_digits(sec.take(d)) && all_digits(
        sec.skip(d + 1),
    )
}

/// Whether `sec` has the shape `<digits>-<digits>`.
pub open spec fn is_range_section(sec: Seq<char>) -> bool {
    exists|d: int| range_split_at(sec, d)
}

/// The position of the dash of a range section.
pub open spec fn range_dash(sec: Seq<char>) -> int {
    choose|d: int| range_split_at(sec, d)
}

/// The lower bound of a range section.
pub open spec fn range_lo(sec: Seq<char>) -> nat {
    digits_val(sec.take(range_dash(sec)))
}

/// The upper bound of a range section.
pub open spec fn range_hi(sec: Seq<char>) -> nat {
    digits_val(sec.skip(range_dash(sec) + 1))
}

/// The characters one comma-separated section adds to the set. `@` adds
/// nothing here: it enables the alphabetic class instead. A section that
/// matches no rule of the grammar grants nothing.
pub open spec fn section_grants(sec: Seq<char>, c: char) -> bool {
    if sec == seq!['@'] {
        false
    } else if sec == seq!['@', '-', '@'] {
        c == '@'
    } else if is_range_section(sec) {
        range_lo(sec) <= c as nat <= range_hi(sec)
    } else if all_digits(sec) {
        c as nat == digits_val(sec)
    } else if all_alpha(sec) {
        sec.contains(c)
    } else {
        false
    }
}

/// Whether one section is the bare `@`, which enables the alphabetic class.
pub open spec fn section_at(sec: Seq<char>) -> bool {
    sec == seq!['@']
}

/// Whether some section of the boundary definition `s` grants `c`.
pub open spec fn grants(s: Seq<char>, c: char) -> bool {
    exists|i: int|
        0 <= i < split_char(s, ',').len() && section_grants(#[trigger] split_char(s, ',')[i], c)
}

/// Whether some section of `s` enables the alphabetic class.
pub open spec fn at_enabled(s: Seq<char>) -> bool {
    exists|i: int| 0 <= i < split_char(s, ',').len() && section_at(#[trigger] split_char(s, ',')[i])
}

/// Decides which characters belong to the word under the cursor, parsed
/// from a comma-separated boundary definition.
#[derive(Debug)]
pub struct KeywordMatcher {
    pub contains_at: bool,
    pub character_set: Vec<char>,
}

impl KeywordMatcher {
    /// What `match_char` decides: `c` is in the explicit set, or the
    /// alphabetic class is enabled and `c` is above code point 255 or
    /// alphabetic.
    pub open spec fn spec_matches(self, c: char) -> bool {
        self.character_set@.contains(c) || (self.contains_at && (c as u32 > 255 || alpha_char(c)))
    }

    /// Whether this matcher is exactly what parsing `s` yields.
    pub open spec fn parsed_from(self, s: Seq<char>) -> bool {
        &&& self.contains_at == at_enabled(s)
        &&& forall|c: char| #[trigger] self.character_set@.contains(c) <==> grants(s, c)
    }
}

proof fn lemma_push_contains(s: Seq<char>, c: char, x: char)
    ensures
        s.push(c).contains(x) <==> (s.contains(x) || x == c),
{
    if s.push(c).contains(x) {
        let i = choose|i: int| 0 <= i < s.push(c).len() && s.push(c)[i] == x;
        if i < s.len() {
            assert(s[i] == x);
        }
    }
    if s.contains(x) {
        let i = choose|i: int| 0 <= i < s.len() && s[i] == x;
        assert(s.push(c)[i] == x);
    }
    if x == c {
        assert(s.push(c)[s.len() as int] == x);
    }
}

/// Any valid dash position of a range section is its unique dash.
proof fn lemma_range_dash_unique(sec: Seq<char>, d: int)
    requires
        range_split_at(sec, d),
    ensures
        is_range_section(sec),
        range_dash(sec) == d,
{
    let d0 = range_dash(sec);
    assert(range_split_at(sec, d0));
    if d0 < d {
        assert(is_dec_digit(sec.take(d)[d0]));
        assert(sec[d0] == '-');
    } else if d0 > d {
        assert(is_dec_digit(sec.take(d0)[d]));
        assert(sec[d] == '-');
    }
}

fn has_triple(v: &Vec<char>) -> (b: bool)
    ensures
        b == has_triple_comma(v@),
{
    let n = v.len();
    if n < 3 {
        return false;
    }
    let m = n - 3;
    let mut i: usize = 0;
    while i <= m
        invariant
            n == v@.len(),
            m == n - 3,
            i <= m + 1,
            forall|j: int|
                #![trigger v@[j]]
                0 <= j < i ==> !(v@[j] == ',' && v@[j + 1] == ',' && v@[j + 2] == ','),
        decreases m + 1 - i,
    {
        if v[i] == ',' && v[i + 1] == ',' && v[i + 2] == ',' {
            return true;
        }
        i = i + 1;
    }
    false
}

fn contains_char(v: &Vec<char>, c: char) -> (b: bool)
    ensures
        b == v@.contains(c),
{
    let mut i: usize = 0;
    while i < v.len()
        invariant
            i <= v@.len(),
            forall|j: int| 0 <= j < i ==> v@[j] != c,
        decreases v@.len() - i,
    {
        if v[i] == c {
            return true;
        }
        i = i + 1;
    }
    false
}

fn subvec(v: &Vec<char>, a: usize, b: usize) -> (r: Vec<char>)
    requires
        a <= b <= v@.len(),
    ensures
        r@ == v@.subrange(a as int, b as int),
{
    let mut r: Vec<char> = Vec::new();
    let mut i: usize = a;
    while i < b
        invariant
            a <= i <= b <= v@.len(),
            r@ == v@.subrange(a as int, i as int),
        decreases b - i,
    {
        r.push(v[i]);
        i = i + 1;
        proof {
            assert(r@ =~= v@.subrange(a as int, i as int));
        }
    }
    r
}

fn all_digits_exec(v: &Vec<char>) -> (b: bool)
    ensures
        b == all_digits(v@),
{
    if v.len() == 0 {
        return false;
    }
    let mut i: usize = 0;
    while i < v.len()
        invariant
            i <= v@.len(),
            forall|j: int| 0 <= j < i ==> is_dec_digit(#[trigger] v@[j]),
        decreases v@.len() - i,
    {
        let c = v[i];
        if !('0' <= c && c <= '9') {
            return false;
        }
        i = i + 1;
    }
    true
}

fn all_alpha_exec(v: &Vec<char>) -> (b: bool)
    ensures
        b == all_alpha(v@),
{
    if v.len() == 0 {
        return false;
    }
    let mut i: usize = 0;
    while i < v.len()
        invariant
            i <= v@.len(),
            forall|j: int| 0 <= j < i ==> alpha_char(#[trigger] v@[j]),
        decreases v@.len() - i,
    {
        if !char_is_alphabetic(v[i]) {
            return false;
        }
        i = i + 1;
    }
    true
}

/// The numeric value of a digit run, capped at `CODE_CAP`.
fn digits_value(v: &Vec<char>) -> (x: u64)
    requires
        all_digits(v@),
    ensures
        x as nat == capped_val(digits_val(v@)),
        x <= CODE_CAP,
{
    let mut x: u64 = 0;
    let mut i: usize = 0;
    proof {
        assert(v@.take(0) =~= Seq::<char>::empty());
    }
    while i < v.len()
        invariant
            all_digits(v@),
            i <= v@.len(),
            x <= CODE_CAP,
            x as nat == capped_val(digits_val(v@.take(i as int))),
        decreases v@.len() - i,
    {
        let c = v[i];
        let d: u64 = (c as u32 as u64) - 48;
        proof {
            assert(is_dec_digit(v@[i as int]));
            assert(v@.take(i + 1).drop_last() =~= v@.take(i as int));
            assert(v@.take(i + 1).last() == v@[i as int]);
        }
        let ghost old_val = digits_val(v@.take(i as int));
        let ghost new_val = digits_val(v@.take(i + 1));
        proof {
            assert(new_val == old_val * 10 + digit_val(v@[i as int]));
        }
        if x == CODE_CAP {
            proof {
                assert(old_val >= CODE_CAP);
                assert(old_val * 10 >= old_val);
                assert(new_val >= CODE_CAP);
            }
        } else {
            let nx = x * 10 + d;
            if nx >= CODE_CAP {
                x = CODE_CAP;
            } else {
                x = nx;
            }
        }
        i = i + 1;
    }
    proof {
        assert(v@.take(v@.len() as int) =~= v@);
    }
    x
}

fn first_dash(v: &Vec<char>) -> (r: Option<usize>)
    ensures
        match r {
            Some(d) => d < v@.len() && v@[d as int] == '-' && forall|k: int|
                0 <= k < d ==> v@[k] != '-',
            None => forall|k: int| 0 <= k < v@.len() ==> v@[k] != '-',
        },
{
    let mut i: usize = 0;
    while i < v.len()
        invariant
            i <= v@.len(),
            forall|k: int| 0 <= k < i ==> v@[k] != '-',
        decreases v@.len() - i,
    {
        if v[i] == '-' {
            return Some(i);
        }
        i = i + 1;
    }
    None
}

/// Adds every character whose code point lies in `[lo, hi]` to `set`.
fn add_range(set: &mut Vec<char>, lo: u64, hi: u64)
    requires
        lo <= CODE_CAP,
        hi <= CODE_CAP,
    ensures
        forall|c: char|
            #[trigger] final(set)@.contains(c) <==> (old(set)@.contains(c) || (lo <= c as u32 && c
                as u32 <= hi)),
{
    let last: u64 = if hi > 0x10FFFF {
        0x10FFFF
    } else {
        hi
    };
    if lo > last {
        proof {
            assert forall|c: char| #[trigger]
                set@.contains(c) <==> (old(set)@.contains(c) || (lo <= c as u32 && c as u32
                    <= hi)) by {
                lemma_char_bound(c);
            }
        }
        return ;
    }
    let mut u: u32 = lo as u32;
    let end: u32 = last as u32;
    while u <= end
        invariant
            lo <= u,
            u <= end + 1,
            end == last,
            last <= 0x10FFFF,
            last <= hi,
            hi <= CODE_CAP,
            forall|c: char|
                #[trigger] set@.contains(c) <==> (old(set)@.contains(c) || (lo <= c as u32 && (c
                    as u32) < u)),
        decreases end + 1 - u,
    {
        match char_from_code(u) {
            Some(ch) => {
                let ghost prev = set@;
                set.push(ch);
                proof {
                    assert(ch as u32 == u);
                    assert forall|c: char| #[trigger]
                        set@.contains(c) <==> (old(set)@.contains(c) || (lo <= c as u32 && (c
                            as u32) < u + 1)) by {
                        lemma_push_contains(prev, ch, c);
                        lemma_char_bound(c);
                        lemma_char_code_injective(c, ch);
                    }
                }
            },
            None => {
                proof {
                    assert(u <= 0x10FFFF);
                    assert(0xD800 <= u && u <= 0xDFFF);
                    assert forall|c: char| #[trigger]
                        set@.contains(c) <==> (old(set)@.contains(c) || (lo <= c as u32 && (c
                            as u32) < u + 1)) by {
                        lemma_char_bound(c);
                        assert(c as u32 != u);
                    }
                }
            },
        }
        u = u + 1;
    }
    proof {
        assert forall|c: char| #[trigger]
            set@.contains(c) <==> (old(set)@.contains(c) || (lo <= c as u32 && c as u32 <= hi)) by {
            lemma_char_bound(c);
        }
    }
}

/// Folds one section into the growing matcher state; returns whether the
/// section was the bare `@`.
fn apply_section(sec: &Vec<char>, set: &mut Vec<char>) -> (at: bool)
    ensures
        at == section_at(sec@),
        forall|c: char|
            #[trigger] final(set)@.contains(c) <==> (old(set)@.contains(c) || section_grants(
                sec@,
                c,
            )),
{
    if sec.len() == 1 && sec[0] == '@' {
        proof {
            assert(sec@ =~= seq!['@']);
        }
        return true;
    }
    proof {
        assert(sec@ != seq!['@']) by {
            if sec@ == seq!['@'] {
                assert(sec@.len() == 1 && sec@[0] == '@');
            }
        }
        assert(!section_at(sec@));
    }
    if sec.len() == 3 && sec[0] == '@' && sec[1] == '-' && sec[2] == '@' {
        proof {
            assert(sec@ =~= seq!['@', '-', '@']);
        }
        let ghost prev = set@;
        set.push('@');
        proof {
            assert forall|c: char| #[trigger]
                set@.contains(c) <==> (prev.contains(c) || section_grants(sec@, c)) by {
                lemma_push_contains(prev, '@', c);
            }
        }
        return false;
    }
    proof {
        assert(sec@ != seq!['@', '-', '@']) by {
            if sec@ == seq!['@', '-', '@'] {
                assert(sec@.len() == 3);
                assert(sec@[0] == '@' && sec@[1] == '-' && sec@[2] == '@');
            }
        }
    }
    // A range section can only split at its first dash: a dash cannot stand
    // inside either all-digit side.
    let dash = first_dash(sec);
    match dash {
        Some(d) if 1 <= d && d + 1 < sec.len() => {
            let left = subvec(sec, 0, d);
            let right = subvec(sec, d + 1, sec.len());
            proof {
                assert(left@ =~= sec@.take(d as int));
                assert(right@ =~= sec@.skip(d + 1));
            }
            if all_digits_exec(&left) && all_digits_exec(&right) {
                proof {
                    lemma_range_dash_unique(sec@, d as int);
                }
                let lo = digits_value(&left);
                let hi = digits_value(&right);
                add_range(set, lo, hi);
                proof {
                    assert forall|c: char| #[trigger]
                        set@.contains(c) <==> (old(set)@.contains(c) || section_grants(sec@, c)) by {
                        lemma_char_bound(c);
                        lemma_capped_bracket(range_lo(sec@), range_hi(sec@), lo, hi, c);
                    }
                }
                return false;
            }
            proof {
                assert(!is_range_section(sec@)) by {
                    if is_range_section(sec@) {
                        let d0 = choose|d0: int| range_split_at(sec@, d0);
                        if d0 < d {
                            assert(sec@[d0] == '-');
                        } else if d0 > d {
                            assert(is_dec_digit(sec@.take(d0)[d as int]));
                            assert(sec@[d as int] == '-');
                        } else {
                            assert(all_digits(left@) && all_digits(right@));
                        }
                    }
                }
                assert(!all_digits(sec@)) by {
                    assert(sec@[d as int] == '-');
                    assert(!is_dec_digit('-'));
                }
            }
            apply_plain(sec, set);
            false
        },
        Some(d) => {
            proof {
                assert(!is_range_section(sec@)) by {
                    if is_range_section(sec@) {
                        let d0 = choose|d0: int| range_split_at(sec@, d0);
                        if d0 < d {
                            assert(sec@[d0] == '-');
                        } else if d0 > d {
                            assert(is_dec_digit(sec@.take(d0)[d as int]));
                            assert(sec@[d as int] == '-');
                        } else {
                            assert(1 <= d0 && d0 + 1 < sec@.len());
                        }
                    }
                }
            }
            apply_plain(sec, set);
            false
        },
        None => {
            proof {
                assert(!is_range_section(sec@)) by {
                    if is_range_section(sec@) {
                        let d0 = choose|d0: int| range_split_at(sec@, d0);
                        assert(sec@[d0] == '-');
                    }
                }
            }
            apply_plain(sec, set);
            false
        },
    }
}

/// Bridges the capped bounds the code computes to the true bounds of the
/// grammar: no character code reaches the cap.
proof fn lemma_capped_bracket(lo_t: nat, hi_t: nat, lo: u64, hi: u64, c: char)
    requires
        lo as nat == capped_val(lo_t),
        hi as nat == capped_val(hi_t),
        c as u32 <= 0x10FFFF,
    ensures
        (lo <= c as u32 && c as u32 <= hi) <==> (lo_t <= c as u32 <= hi_t),
{
}

/// Folds a section already known not to be `@`, `@-@` or a range.
fn apply_plain(sec: &Vec<char>, set: &mut Vec<char>)
    requires
        !section_at(sec@),
        sec@ != seq!['@', '-', '@'],
        !is_range_section(sec@),
    ensures
        forall|c: char|
            #[trigger] final(set)@.contains(c) <==> (old(set)@.contains(c) || section_grants(
                sec@,
                c,
            )),
{
    if all_digits_exec(sec) {
        let v = digits_value(sec);
        let ghost prev = set@;
        match char_from_code(v as u32) {
            Some(ch) => {
                proof {
                    assert(v < CODE_CAP);
                    assert(v as nat == digits_val(sec@));
                }
                set.push(ch);
                proof {
                    assert(ch as u32 == v);
                    assert forall|c: char| #[trigger]
                        set@.contains(c) <==> (prev.contains(c) || section_grants(sec@, c)) by {
                        lemma_push_contains(prev, ch, c);
                        lemma_char_bound(c);
                        lemma_char_code_injective(c, ch);
                    }
                }
            },
            None => {
                proof {
                    assert forall|c: char| #[trigger]
                        set@.contains(c) <==> (prev.contains(c) || section_grants(sec@, c)) by {
                        lemma_char_bound(c);
                        assert(c as u32 != v as u32);
                        assert(c as u32 != digits_val(sec@)) by {
                            if digits_val(sec@) >= CODE_CAP {
                            } else {
                                assert(v as nat == digits_val(sec@));
                            }
                        }
                    }
                }
            },
        }
    } else if all_alpha_exec(sec) {
        let mut i: usize = 0;
        while i < sec.len()
            invariant
                i <= sec@.len(),
                all_alpha(sec@),
                !all_digits(sec@),
                !section_at(sec@),
                sec@ != seq!['@', '-', '@'],
                !is_range_section(sec@),
                forall|c: char|
                    #[trigger] set@.contains(c) <==> (old(set)@.contains(c) || sec@.take(
                        i as int,
                    ).contains(c)),
            decreases sec@.len() - i,
        {
            let ghost prev = set@;
            let c0 = sec[i];
            set.push(c0);
            i = i + 1;
            proof {
                assert forall|c: char| #[trigger]
                    set@.contains(c) <==> (old(set)@.contains(c) || sec@.take(i as int).contains(
                        c,
                    )) by {
                    lemma_push_contains(prev, c0, c);
                    lemma_push_contains(sec@.take(i - 1), c0, c);
                    assert(sec@.take(i - 1).push(c0) =~= sec@.take(i as int));
                }
            }
        }
        proof {
            assert(sec@.take(sec@.len() as int) =~= sec@);
        }
    } else {
        // Unknown syntax: ignored for forward compatibility.
    }
}

impl KeywordMatcher {
    /// Whether `c` belongs to a keyword.
    pub fn match_char(&self, c: &char) -> (b: bool)
        ensures
            b == self.spec_matches(*c),
    {
        if contains_char(&self.character_set, *c) {
            return true;
        }
        if self.contains_at {
            let cc: char = *c;
            if (cc as u32) > 255 {
                return true;
            }
            if char_is_alphabetic(cc) {
                return true;
            }
        }
        false
    }

    /// Parses a boundary definition. Fails exactly on three consecutive
    /// separators; every other string parses, with unknown sections ignored.
    pub fn from_str(s: &str) -> (r: Result<KeywordMatcher, KeywordError>)
        ensures
            r is Err <==> has_triple_comma(s@),
            r matches Ok(m) ==> m.parsed_from(s@),
    {
        let chars = str_chars(s);
        if has_triple(&chars) {
            return Err(KeywordError::ContainsTripleCommasPlzNo);
        }
        let sections = split_chars(&chars, ',');
        let mut contains_at = false;
        let mut character_set: Vec<char> = Vec::new();
        let mut k: usize = 0;
        while k < sections.len()
            invariant
                char_seqs(sections@) == split_char(s@, ','),
                k <= sections@.len(),
                contains_at == (exists|i: int|
                    0 <= i < k && section_at(#[trigger] split_char(s@, ',')[i])),
                forall|c: char|
                    #[trigger] character_set@.contains(c) <==> (exists|i: int|
                        0 <= i < k && section_grants(#[trigger] split_char(s@, ',')[i], c)),
            decreases sections@.len() - k,
        {
            let ghost prev_at = contains_at;
            let ghost prev_set = character_set@;
            let at = apply_section(&sections[k], &mut character_set);
            if at {
                contains_at = true;
            }
            proof {
                assert(sections@[k as int]@ == split_char(s@, ',')[k as int]);
            }
            k = k + 1;
            proof {
                assert(contains_at == (exists|i: int|
                    0 <= i < k && section_at(#[trigger] split_char(s@, ',')[i]))) by {
                    if contains_at {
                        if prev_at {
                            let i = choose|i: int|
                                0 <= i < k - 1 && section_at(#[trigger] split_char(s@, ',')[i]);
                            assert(section_at(split_char(s@, ',')[i]));
                        } else {
                            assert(section_at(split_char(s@, ',')[k - 1]));
                        }
                    }
                }
                assert forall|c: char| #[trigger]
                    character_set@.contains(c) <==> (exists|i: int|
                        0 <= i < k && section_grants(#[trigger] split_char(s@, ',')[i], c)) by {
                    if character_set@.contains(c) {
                        if prev_set.contains(c) {
                            let i = choose|i: int|
                                0 <= i < k - 1 && section_grants(
                                    #[trigger] split_char(s@, ',')[i],
                                    c,
                                );
                            assert(section_grants(split_char(s@, ',')[i], c));
                        } else {
                            assert(section_grants(split_char(s@, ',')[k - 1], c));
                        }
                    }
                    if exists|i: int|
                        0 <= i < k && section_grants(#[trigger] split_char(s@, ',')[i], c) {
                        let i = choose|i: int|
                            0 <= i < k && section_grants(#[trigger] split_char(s@, ',')[i], c);
                        if i < k - 1 {
                            assert(prev_set.contains(c));
                        }
                    }
                }
            }
        }
        Ok(KeywordMatcher { contains_at, character_set })
    }
}

/// The position the left scan stops at: the least index such that every
/// character from it up to `j` matches.
pub open spec fn scan_left(m: KeywordMatcher, line: Seq<char>, j: int) -> int
    decreases j,
{
    if j <= 0 {
        0
    } else if !m.spec_matches(line[j - 1]) {
        j
    } else {
        scan_left(m, line, j - 1)
    }
}

/// The position the right scan stops at: the first non-matching index at or
/// after `j`, or the last index of the line if all of them match.
pub open spec fn scan_right(m: KeywordMatcher, line: Seq<char>, j: int) -> int
    decreases line.len() - j,
{
    if !m.spec_matches(line[j]) {
        j
    } else if j + 1 >= line.len() {
        j
    } else {
        scan_right(m, line, j + 1)
    }
}

/// Where the word around `cursor` finishes: the right scan starts one past
/// the cursor and the cursor itself is the fallback.
pub open spec fn boundary_finish(m: KeywordMatcher, line: Seq<char>, cursor: int) -> int {
    if cursor + 1 < line.len() {
        scan_right(m, line, cursor + 1)
    } else {
        cursor
    }
}

impl KeywordMatcher {
    fn scan_left_exec(&self, chars: &Vec<char>, j: usize) -> (r: usize)
        requires
            j <= chars@.len(),
        ensures
            r == scan_left(*self, chars@, j as int),
        decreases j,
    {
        if j == 0 {
            0
        } else if !self.match_char(&chars[j - 1]) {
            j
        } else {
            self.scan_left_exec(chars, j - 1)
        }
    }

    fn scan_right_exec(&self, chars: &Vec<char>, j: usize) -> (r: usize)
        requires
            j < chars@.len(),
        ensures
            r == scan_right(*self, chars@, j as int),
        decreases chars@.len() - j,
    {
        if !self.match_char(&chars[j]) {
            j
        } else if j >= chars.len() - 1 {
            j
        } else {
            self.scan_right_exec(chars, j + 1)
        }
    }

    /// The span of the word around `cursor`, in code-point indices: scans
    /// left from the cursor and right from one past it, in both directions
    /// as long as `match_char` holds.
    pub fn find(&self, line: &str, cursor: u64) -> (r: LineRange)
        requires
            cursor <= line@.len(),
        ensures
            r.start == scan_left(*self, line@, cursor as int),
            r.finish == boundary_finish(*self, line@, cursor as int),
    {
        let chars = str_chars(line);
        let cursor_us = cursor as usize;
        let start = self.scan_left_exec(&chars, cursor_us);
        let finish = if chars.len() - cursor_us > 1 {
            self.scan_right_exec(&chars, cursor_us + 1)
        } else {
            cursor_us
        };
        LineRange { start, finish }
    }
}

/// Parses a boundary definition that is known to be well-formed.
pub fn transform(iskeyword: &str) -> (m: KeywordMatcher)
    requires
        !has_triple_comma(iskeyword@),
    ensures
        m.parsed_from(iskeyword@),
{
    match KeywordMatcher::from_str(iskeyword) {
        Ok(m) => m,
        Err(_) => vstd::pervasive::unreached(),
    }
}

} // verus!
