use vstd::prelude::*;

verus! {

/// The Unicode lowercase form of a character sequence, as
/// `str::to_lowercase` computes it: it depends on the characters alone.
pub uninterp spec fn lower_of(s: Seq<char>) -> Seq<char>;

/// Relies on `str::to_lowercase`: the returned string is the lowercase
/// form of the input, a function of the characters alone.
#[verifier::external_body]
pub fn lowercase(s: &String) -> (r: String)
    ensures
        r@ == lower_of(s@),
{
    s.to_lowercase()
}

/// Whether `p` is a prefix of `s`.
pub open spec fn is_prefix(p: Seq<char>, s: Seq<char>) -> bool {
    p.len() <= s.len() && s.subrange(0, p.len() as int) == p
}

/// Relies on `str::starts_with`: true exactly when the pattern matches a
/// prefix of the string.
#[verifier::external_body]
pub fn str_starts_with(s: &String, p: &String) -> (r: bool)
    ensures
        r == is_prefix(p@, s@),
{
    s.starts_with(p.as_str())
}

/// Lexicographic order on character sequences, by code point.
pub open spec fn lex_le(a: Seq<char>, b: Seq<char>) -> bool
    decreases a.len(),
{
    if a.len() == 0 {
        true
    } else if b.len() == 0 {
        false
    } else if (a[0] as int) < (b[0] as int) {
        true
    } else if (a[0] as int) > (b[0] as int) {
        false
    } else {
        lex_le(a.drop_first(), b.drop_first())
    }
}

/// Relies on `str`'s `PartialOrd`: strings order lexicographically by
/// byte, which for UTF-8 coincides with lexicographic order by code
/// point.
#[verifier::external_body]
pub fn str_le(a: &String, b: &String) -> (r: bool)
    ensures
        r == lex_le(a@, b@),
{
    a.as_str() <= b.as_str()
}

/// Relies on `String::push`: appends the character to the end.
#[verifier::external_body]
pub fn push_char(s: &mut String, c: char)
    ensures
        final(s)@ == old(s)@.push(c),
{
    s.push(c)
}

/// Relies on `String::pop`: removes and returns the last character, or
/// does nothing on an empty string.
#[verifier::external_body]
pub fn pop_char(s: &mut String) -> (r: Option<char>)
    ensures
        old(s)@.len() == 0 ==> r is None && final(s)@ == old(s)@,
        old(s)@.len() > 0 ==> r == Some(old(s)@.last()) && final(s)@ == old(s)@.drop_last(),
{
    s.pop()
}

/// View of a list of strings.
pub open spec fn strs_view(s: Seq<String>) -> Seq<Seq<char>> {
    s.map_values(|t: String| t@)
}

/// `x` inserted into `s` before the first entry it precedes or equals.
pub open spec fn spec_insert_sorted(s: Seq<Seq<char>>, x: Seq<char>) -> Seq<Seq<char>>
    decreases s.len(),
{
    if s.len() == 0 {
        seq![x]
    } else if lex_le(x, s[0]) {
        seq![x] + s
    } else {
        seq![s[0]] + spec_insert_sorted(s.drop_first(), x)
    }
}

/// The list sorted by insertion, element by element in list order.
pub open spec fn spec_sort(s: Seq<Seq<char>>) -> Seq<Seq<char>>
    decreases s.len(),
{
    if s.len() == 0 {
        Seq::empty()
    } else {
        spec_insert_sorted(spec_sort(s.drop_last()), s.last())
    }
}

fn insert_sorted(v: &Vec<String>, x: &String) -> (r: Vec<String>)
    ensures
        strs_view(r@) == spec_insert_sorted(strs_view(v@), x@),
    decreases v@.len(),
{
    let ghost sv = strs_view(v@);
    if v.len() == 0 {
        let mut r: Vec<String> = Vec::new();
        r.push(x.clone());
        proof {
            assert(strs_view(r@) =~= spec_insert_sorted(sv, x@));
        }
        r
    } else if str_le(x, &v[0]) {
        let mut r: Vec<String> = Vec::new();
        r.push(x.clone());
        let mut i: usize = 0;
        while i < v.len()
            invariant
                i <= sv.len(),
                sv == strs_view(v@),
                r@.len() == i + 1,
                r@[0]@ == x@,
                forall|j: int| 0 <= j < i ==> r@[j + 1]@ == v@[j]@,
            decreases sv.len() - i,
        {
            r.push(v[i].clone());
            i = i + 1;
        }
        proof {
            assert(strs_view(r@) =~= seq![x@] + sv);
        }
        r
    } else {
        let mut tail: Vec<String> = Vec::new();
        let mut i: usize = 1;
        while i < v.len()
            invariant
                1 <= i <= sv.len(),
                sv == strs_view(v@),
                tail@.len() == i - 1,
                forall|j: int| 0 <= j < i - 1 ==> tail@[j]@ == v@[j + 1]@,
            decreases sv.len() - i,
        {
            tail.push(v[i].clone());
            i = i + 1;
        }
        proof {
            assert(strs_view(tail@) =~= sv.drop_first());
        }
        let sub = insert_sorted(&tail, x);
        let mut r: Vec<String> = Vec::new();
        r.push(v[0].clone());
        let mut k: usize = 0;
        while k < sub.len()
            invariant
                k <= sub@.len(),
                strs_view(sub@) == spec_insert_sorted(sv.drop_first(), x@),
                r@.len() == k + 1,
                r@[0]@ == sv[0],
                forall|j: int| 0 <= j < k ==> r@[j + 1]@ == sub@[j]@,
            decreases sub@.len() - k,
        {
            r.push(sub[k].clone());
            k = k + 1;
        }
        proof {
            assert(strs_view(r@) =~= seq![sv[0]] + spec_insert_sorted(sv.drop_first(), x@));
        }
        r
    }
}

/// Sorts the strings lexicographically by code point, by insertion in
/// list order.
pub fn sort_strings(v: &Vec<String>) -> (r: Vec<String>)
    ensures
        strs_view(r@) == spec_sort(strs_view(v@)),
{
    let ghost sv = strs_view(v@);
    let mut r: Vec<String> = Vec::new();
    let mut i: usize = 0;
    while i < v.len()
        invariant
            i <= sv.len(),
            sv == strs_view(v@),
            strs_view(r@) == spec_sort(sv.take(i as int)),
        decreases sv.len() - i,
    {
        proof {
            assert(sv.take(i + 1).drop_last() =~= sv.take(i as int));
            assert(sv.take(i + 1).last() == sv[i as int]);
            assert(strs_view(v@)[i as int] == v@[i as int]@);
        }
        let next = insert_sorted(&r, &v[i]);
        r = next;
        i = i + 1;
    }
    proof {
        assert(sv.take(sv.len() as int) =~= sv);
    }
    r
}

/// Whether every character is a decimal digit.
pub open spec fn all_digits(s: Seq<char>) -> bool {
    forall|i: int| 0 <= i < s.len() ==> '0' <= #[trigger] s[i] <= '9'
}

/// The number a string of decimal digits denotes.
pub open spec fn digits_val(s: Seq<char>) -> int
    decreases s.len(),
{
    if s.len() == 0 {
        0
    } else {
        digits_val(s.drop_last()) * 10 + (s.last() as int - '0' as int)
    }
}

proof fn lemma_digits_val_nonneg(s: Seq<char>)
    requires
        all_digits(s),
    ensures
        digits_val(s) >= 0,
    decreases s.len(),
{
    if s.len() > 0 {
        assert(all_digits(s.drop_last()));
        lemma_digits_val_nonneg(s.drop_last());
    }
}

proof fn lemma_digits_val_take_le(s: Seq<char>, j: int)
    requires
        all_digits(s),
        0 <= j <= s.len(),
    ensures
        0 <= digits_val(s.take(j)) <= digits_val(s),
    decreases s.len() - j,
{
    assert(all_digits(s.take(j)));
    lemma_digits_val_nonneg(s.take(j));
    if j == s.len() {
        assert(s.take(j) =~= s);
    } else {
        assert(s.take(j + 1).drop_last() =~= s.take(j));
        assert(s.take(j + 1).last() == s[j]);
        lemma_digits_val_take_le(s, j + 1);
    }
}

/// Parses a string of decimal digits into a number; an empty string or a
/// value beyond `u32::MAX` parses to nothing.
pub fn parse_digits(s: &String) -> (r: Option<u32>)
    requires
        all_digits(s@),
    ensures
        match r {
            Some(n) => s@.len() > 0 && digits_val(s@) <= u32::MAX && n as int == digits_val(s@),
            None => s@.len() == 0 || digits_val(s@) > u32::MAX,
        },
{
    proof {
        assert(vstd::utf8::is_ascii_chars(s@));
        vstd::utf8::is_ascii_chars_encode_utf8(s@);
    }
    let bytes = s.as_str().as_bytes();
    if bytes.len() == 0 {
        return None;
    }
    let mut n: u32 = 0;
    let mut i: usize = 0;
    while i < bytes.len()
        invariant
            i <= s@.len(),
            all_digits(s@),
            bytes@.len() == s@.len(),
            forall|j: int| 0 <= j < s@.len() ==> #[trigger] bytes@[j] == s@[j] as u8,
            n as int == digits_val(s@.take(i as int)),
        decreases s@.len() - i,
    {
        proof {
            assert(s@.take(i + 1).drop_last() =~= s@.take(i as int));
            assert(s@.take(i + 1).last() == s@[i as int]);
            lemma_digits_val_take_le(s@, i + 1);
            assert(('0' <= s@[i as int] <= '9'));
            assert(48 <= s@[i as int] as u8 <= 57);
        }
        let d = (bytes[i] - 48) as u64;
        let next = n as u64 * 10 + d;
        if next > u32::MAX as u64 {
            return None;
        }
        n = next as u32;
        i = i + 1;
    }
    proof {
        assert(s@.take(s@.len() as int) =~= s@);
    }
    Some(n)
}

} // verus!
