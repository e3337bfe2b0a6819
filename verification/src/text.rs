use vstd::prelude::*;
use vstd::string::StrSliceExecFns;

verus! {

/// The Unicode White_Space characters: the set that input trimming strips
/// from both ends of a name.
pub open spec fn is_unicode_ws(c: char) -> bool {
    c == ' ' || c == '\t' || c == '\n' || c == '\u{b}' || c == '\u{c}' || c == '\r' || c
        == '\u{85}' || c == '\u{a0}' || c == '\u{1680}' || c == '\u{2000}' || c == '\u{2001}' || c
        == '\u{2002}' || c == '\u{2003}' || c == '\u{2004}' || c == '\u{2005}' || c == '\u{2006}'
        || c == '\u{2007}' || c == '\u{2008}' || c == '\u{2009}' || c == '\u{200a}' || c
        == '\u{2028}' || c == '\u{2029}' || c == '\u{202f}' || c == '\u{205f}' || c == '\u{3000}'
}

fn is_ws_char(c: char) -> (r: bool)
    ensures
        r == is_unicode_ws(c),
{
    c == ' ' || c == '\t' || c == '\n' || c == '\u{b}' || c == '\u{c}' || c == '\r' || c
        == '\u{85}' || c == '\u{a0}' || c == '\u{1680}' || c == '\u{2000}' || c == '\u{2001}' || c
        == '\u{2002}' || c == '\u{2003}' || c == '\u{2004}' || c == '\u{2005}' || c == '\u{2006}'
        || c == '\u{2007}' || c == '\u{2008}' || c == '\u{2009}' || c == '\u{200a}' || c
        == '\u{2028}' || c == '\u{2029}' || c == '\u{202f}' || c == '\u{205f}' || c == '\u{3000}'
}

/// The characters of `s`, in order, as a vector.
pub fn chars_of_str(s: &str) -> (r: Vec<char>)
    ensures
        r@ == s@,
{
    let n = s.unicode_len();
    let mut r: Vec<char> = Vec::new();
    let mut i: usize = 0;
    while i < n
        invariant
            i <= n,
            n == s@.len(),
            r@ == s@.subrange(0, i as int),
        decreases n - i,
    {
        r.push(s.get_char(i));
        proof {
            assert(r@ =~= s@.subrange(0, i + 1 as int));
        }
        i = i + 1;
    }
    proof {
        assert(s@.subrange(0, s@.len() as int) =~= s@);
    }
    r
}

/// Relies on String's FromIterator<char> impl: collecting an iterator of
/// chars yields the string of exactly those chars, in order.
#[verifier::external_body]
pub fn string_from_chars(v: &Vec<char>) -> (r: String)
    ensures
        r@ == v@,
{
    v.iter().collect()
}

/// Index of the first character that is not whitespace, or the length when
/// all of them are.
pub open spec fn first_non_ws(s: Seq<char>) -> int
    decreases s.len(),
{
    if s.len() == 0 {
        0
    } else if !is_unicode_ws(s[0]) {
        0
    } else {
        1 + first_non_ws(s.drop_first())
    }
}

/// Index of the last character that is not whitespace, or -1 when all of
/// them are.
pub open spec fn last_non_ws(s: Seq<char>) -> int
    decreases s.len(),
{
    if s.len() == 0 {
        -1
    } else if !is_unicode_ws(s.last()) {
        s.len() - 1
    } else {
        last_non_ws(s.drop_last())
    }
}

/// `s` with leading and trailing whitespace removed.
pub open spec fn trim_spec(s: Seq<char>) -> Seq<char> {
    let b = last_non_ws(s);
    if b == -1 {
        Seq::empty()
    } else {
        s.subrange(first_non_ws(s), b + 1)
    }
}

proof fn lemma_first_non_ws_scan(s: Seq<char>, i: int)
    requires
        0 <= i <= s.len(),
        forall|j: int| 0 <= j < i ==> is_unicode_ws(s[j]),
        i < s.len() ==> !is_unicode_ws(s[i]),
    ensures
        first_non_ws(s) == i,
    decreases i,
{
    if i == 0 {
        if s.len() > 0 {
        }
    } else {
        assert(is_unicode_ws(s[0]));
        assert forall|j: int| 0 <= j < i - 1 implies is_unicode_ws(s.drop_first()[j]) by {
            assert(s.drop_first()[j] == s[j + 1]);
        }
        if i < s.len() {
            assert(s.drop_first()[i - 1] == s[i]);
        }
        lemma_first_non_ws_scan(s.drop_first(), i - 1);
    }
}

proof fn lemma_last_non_ws_scan(s: Seq<char>, b: int)
    requires
        -1 <= b < s.len(),
        forall|j: int| b < j < s.len() ==> is_unicode_ws(s[j]),
        b >= 0 ==> !is_unicode_ws(s[b]),
    ensures
        last_non_ws(s) == b,
    decreases s.len() - b,
{
    if b == s.len() - 1 {
    } else {
        assert(is_unicode_ws(s.last()));
        assert forall|j: int| b < j < s.drop_last().len() implies is_unicode_ws(
            s.drop_last()[j],
        ) by {
            assert(s.drop_last()[j] == s[j]);
        }
        if b >= 0 {
            assert(s.drop_last()[b] == s[b]);
        }
        lemma_last_non_ws_scan(s.drop_last(), b);
    }
}

/// `s` with leading and trailing Unicode whitespace removed.
pub fn trimmed(s: &str) -> (r: String)
    ensures
        r@ == trim_spec(s@),
{
    let cs = chars_of_str(s);
    let n = cs.len();
    let mut a: usize = 0;
    while a < n && is_ws_char(cs[a])
        invariant
            a <= n,
            n == s@.len(),
            cs@ == s@,
            forall|j: int| 0 <= j < a ==> is_unicode_ws(s@[j]),
        decreases n - a,
    {
        a = a + 1;
    }
    proof {
        lemma_first_non_ws_scan(s@, a as int);
    }
    if a == n {
        proof {
            lemma_last_non_ws_scan(s@, -1);
            assert(trim_spec(s@) =~= Seq::<char>::empty());
        }
        let empty: Vec<char> = Vec::new();
        let r = string_from_chars(&empty);
        proof {
            assert(r@ =~= trim_spec(s@));
        }
        return r;
    }
    let mut b: usize = n - 1;
    while b > a && is_ws_char(cs[b])
        invariant
            a <= b < n,
            n == s@.len(),
            cs@ == s@,
            !is_unicode_ws(s@[a as int]),
            forall|j: int| b < j < n ==> is_unicode_ws(s@[j]),
        decreases b,
    {
        b = b - 1;
    }
    proof {
        assert(!is_unicode_ws(s@[b as int]));
        lemma_last_non_ws_scan(s@, b as int);
    }
    let mut out: Vec<char> = Vec::new();
    let mut i: usize = a;
    while i <= b
        invariant
            a <= i <= b + 1,
            b < n,
            n == s@.len(),
            cs@ == s@,
            out@ == s@.subrange(a as int, i as int),
        decreases b + 1 - i,
    {
        out.push(cs[i]);
        proof {
            assert(out@ =~= s@.subrange(a as int, i + 1 as int));
        }
        i = i + 1;
    }
    let r = string_from_chars(&out);
    proof {
        assert(r@ == s@.subrange(a as int, b + 1 as int));
        assert(trim_spec(s@) == s@.subrange(first_non_ws(s@), last_non_ws(s@) + 1));
    }
    r
}

/// A name is accepted when it holds at least one character that is not a
/// plain space.
pub fn is_valid(input_str: String) -> (r: bool)
    ensures
        r <==> exists|i: int| 0 <= i < input_str@.len() && input_str@[i] != ' ',
{
    let cs = chars_of_str(input_str.as_str());
    let mut i: usize = 0;
    while i < cs.len()
        invariant
            i <= cs@.len(),
            cs@ == input_str@,
            forall|j: int| 0 <= j < i ==> input_str@[j] == ' ',
        decreases cs.len() - i,
    {
        if cs[i] != ' ' {
            assert(input_str@[i as int] != ' ');
            return true;
        }
        i = i + 1;
    }
    false
}

/// A trimmed candidate name collides when it already occurs, letter for
/// letter, among the existing names.
pub fn has_duplicate(input_name: String, existing_names: Vec<String>) -> (r: bool)
    ensures
        r == existing_names.deep_view().contains(trim_spec(input_name@)),
{
    let actual_name = trimmed(input_name.as_str());
    let mut i: usize = 0;
    while i < existing_names.len()
        invariant
            i <= existing_names@.len(),
            actual_name@ == trim_spec(input_name@),
            forall|j: int| 0 <= j < i ==> existing_names.deep_view()[j] != trim_spec(input_name@),
        decreases existing_names.len() - i,
    {
        if existing_names[i] == actual_name {
            assert(existing_names.deep_view()[i as int] == trim_spec(input_name@));
            return true;
        }
        i = i + 1;
    }
    proof {
        if existing_names.deep_view().contains(trim_spec(input_name@)) {
            let k = choose|k: int|
                0 <= k < existing_names.deep_view().len() && existing_names.deep_view()[k]
                    == trim_spec(input_name@);
            assert(existing_names.deep_view()[k] != trim_spec(input_name@));
        }
    }
    false
}

/// Keep the previous text when the new input is blank; otherwise take the
/// new input, trimmed.
pub fn place_holder_helper(prev: String, input: String) -> (r: String)
    ensures
        (exists|i: int| 0 <= i < input@.len() && input@[i] != ' ') ==> r@ == trim_spec(input@),
        !(exists|i: int| 0 <= i < input@.len() && input@[i] != ' ') ==> r@ == prev@,
{
    if is_valid(input.clone()) {
        let temp = trimmed(input.as_str());
        return temp;
    }
    prev
}

/// Element-wise equality of two string vectors.
pub fn is_same_vec_string(arr: Vec<String>, brr: Vec<String>) -> (r: bool)
    ensures
        r == (arr.deep_view() == brr.deep_view()),
{
    if arr.len() != brr.len() {
        assert(arr.deep_view().len() != brr.deep_view().len());
        return false;
    }
    let mut i: usize = 0;
    while i < arr.len()
        invariant
            i <= arr@.len(),
            arr@.len() == brr@.len(),
            forall|j: int| 0 <= j < i ==> arr.deep_view()[j] == brr.deep_view()[j],
        decreases arr.len() - i,
    {
        if arr[i] != brr[i] {
            assert(arr.deep_view()[i as int] != brr.deep_view()[i as int]);
            return false;
        }
        i = i + 1;
    }
    proof {
        assert(arr.deep_view() =~= brr.deep_view());
    }
    true
}

/// Element-wise equality of two vectors of string vectors.
pub fn is_same_2_d_vec_string(arr: Vec<Vec<String>>, brr: Vec<Vec<String>>) -> (r: bool)
    ensures
        r == (arr.deep_view() == brr.deep_view()),
{
    if arr.len() != brr.len() {
        assert(arr.deep_view().len() != brr.deep_view().len());
        return false;
    }
    let mut i: usize = 0;
    while i < arr.len()
        invariant
            i <= arr@.len(),
            arr@.len() == brr@.len(),
            forall|j: int| 0 <= j < i ==> arr.deep_view()[j] == brr.deep_view()[j],
        decreases arr.len() - i,
    {
        let a = arr[i].clone();
        let b = brr[i].clone();
        proof {
            assert(a.deep_view() =~= arr.deep_view()[i as int]);
            assert(b.deep_view() =~= brr.deep_view()[i as int]);
        }
        if !is_same_vec_string(a, b) {
            assert(arr.deep_view()[i as int] != brr.deep_view()[i as int]);
            return false;
        }
        i = i + 1;
    }
    proof {
        assert(arr.deep_view() =~= brr.deep_view());
    }
    true
}

} // verus!
