//! The small amount of text handling the rest of the crate needs, stated over
//! the characters of a string.

use vstd::prelude::*;
use vstd::string::*;

verus! {

/// Anything a name, a path or a header can be given as.
pub trait IntoText {
    spec fn text(&self) -> Seq<char>;

    fn into_text(self) -> (s: String) where Self: Sized
        ensures
            s@ == self.text(),
    ;
}

impl IntoText for String {
    open spec fn text(&self) -> Seq<char> {
        self@
    }

    fn into_text(self) -> (s: String) {
        self
    }
}

impl<'a> IntoText for &'a str {
    open spec fn text(&self) -> Seq<char> {
        self@
    }

    fn into_text(self) -> (s: String) {
        self.to_owned()
    }
}

impl<'a> IntoText for &'a String {
    open spec fn text(&self) -> Seq<char> {
        self@
    }

    fn into_text(self) -> (s: String) {
        self.clone()
    }
}

/// Anything a message body can be given as.
pub trait IntoBytes {
    spec fn bytes(&self) -> Seq<u8>;

    fn into_bytes_vec(self) -> (v: Vec<u8>) where Self: Sized
        ensures
            v@ == self.bytes(),
    ;
}

impl IntoBytes for Vec<u8> {
    open spec fn bytes(&self) -> Seq<u8> {
        self@
    }

    fn into_bytes_vec(self) -> (v: Vec<u8>) {
        self
    }
}

impl<'a> IntoBytes for &'a [u8] {
    open spec fn bytes(&self) -> Seq<u8> {
        self@
    }

    fn into_bytes_vec(self) -> (v: Vec<u8>) {
        vstd::slice::slice_to_vec(self)
    }
}

impl<'a> IntoBytes for &'a str {
    open spec fn bytes(&self) -> Seq<u8> {
        self.spec_bytes()
    }

    fn into_bytes_vec(self) -> (v: Vec<u8>) {
        self.as_bytes_vec()
    }
}

impl IntoBytes for String {
    open spec fn bytes(&self) -> Seq<u8> {
        vstd::utf8::encode_utf8(self@)
    }

    fn into_bytes_vec(self) -> (v: Vec<u8>) {
        self.as_str().as_bytes_vec()
    }
}

/// The characters of a string, one after the other.
pub fn chars_of(s: &str) -> (chars: Vec<char>)
    ensures
        chars@ == s@,
{
    let mut chars: Vec<char> = Vec::new();
    for c in it: s.chars()
        invariant
            it.seq() == s@,
            chars@ == s@.take(it.index() as int),
    {
        chars.push(c);
    }
    assert(s@.take(s@.len() as int) =~= s@);
    chars
}

/// Whether two strings hold the same characters.
pub fn same(a: &str, b: &str) -> (equal: bool)
    ensures
        equal == (a@ == b@),
{
    a.to_owned() == b.to_owned()
}

/// An ASCII capital becomes its small letter, any other character stays.
pub open spec fn lower_char(c: char) -> char {
    if 'A' <= c && c <= 'Z' {
        ((c as u8 + 32) as u8) as char
    } else {
        c
    }
}

/// A string with its ASCII capitals made small.
pub open spec fn lowered(s: Seq<char>) -> Seq<char> {
    s.map_values(|c: char| lower_char(c))
}

/// Two strings that differ at most in the case of ASCII letters.
pub open spec fn same_ignoring_case(a: Seq<char>, b: Seq<char>) -> bool {
    lowered(a) == lowered(b)
}

fn to_lower_char(c: char) -> (l: char)
    ensures
        l == lower_char(c),
{
    if 'A' <= c && c <= 'Z' {
        (c as u8 + 32) as char
    } else {
        c
    }
}

pub fn eq_ignoring_case(a: &str, b: &str) -> (equal: bool)
    ensures
        equal == same_ignoring_case(a@, b@),
{
    let x: Vec<char> = chars_of(a);
    let y: Vec<char> = chars_of(b);
    if x.len() != y.len() {
        assert(lowered(a@).len() != lowered(b@).len());
        return false;
    }
    let mut i: usize = 0;
    while i < x.len()
        invariant
            x@ == a@,
            y@ == b@,
            x@.len() == y@.len(),
            i <= x@.len(),
            forall|j: int| 0 <= j < i ==> lower_char(x@[j]) == lower_char(y@[j]),
        decreases x@.len() - i,
    {
        if to_lower_char(x[i]) != to_lower_char(y[i]) {
            assert(lowered(a@)[i as int] != lowered(b@)[i as int]);
            return false;
        }
        i += 1;
    }
    assert(lowered(a@) =~= lowered(b@));
    true
}

/// The string with its ASCII capitals made small.
pub fn to_lower(s: &str) -> (l: String)
    ensures
        l@ == lowered(s@),
{
    let small: &str = "abcdefghijklmnopqrstuvwxyz";
    proof {
        reveal_strlit("abcdefghijklmnopqrstuvwxyz");
    }
    let chars: Vec<char> = chars_of(s);
    let mut out: String = String::new();
    let mut i: usize = 0;
    while i < chars.len()
        invariant
            chars@ == s@,
            i <= chars@.len(),
            out@ == lowered(s@.take(i as int)),
            small@.len() == 26,
            forall|k: int| 0 <= k < 26 ==> #[trigger] small@[k] == ((97 + k) as u8) as char,
        decreases chars@.len() - i,
    {
        let c: char = chars[i];
        if 'A' <= c && c <= 'Z' {
            let k: usize = (c as u8 - 65) as usize;
            out.append(small.substring_char(k, k + 1));
        } else {
            out.append(s.substring_char(i, i + 1));
        }
        proof {
            assert(out@ =~= lowered(s@.take(i as int)).push(lower_char(c)));
            assert(s@.take(i + 1) =~= s@.take(i as int).push(c));
            assert(lowered(s@.take(i + 1)) =~= lowered(s@.take(i as int)).push(lower_char(c)));
        }
        i += 1;
    }
    assert(s@.take(s@.len() as int) =~= s@);
    out
}

/// The decimal digits of a number, most significant first.
pub open spec fn decimal(n: nat) -> Seq<char>
    decreases n,
{
    if n < 10 {
        seq![((48 + n) as u8) as char]
    } else {
        decimal(n / 10).push(((48 + n % 10) as u8) as char)
    }
}

/// Write a number behind the text that is already there.
pub fn append_decimal(out: &mut String, n: u32)
    ensures
        final(out)@ == old(out)@ + decimal(n as nat),
    decreases n,
{
    let digits: &str = "0123456789";
    proof {
        reveal_strlit("0123456789");
    }
    if n >= 10 {
        append_decimal(out, n / 10);
    }
    let d: usize = (n % 10) as usize;
    let ghost before = out@;
    out.append(digits.substring_char(d, d + 1));
    assert(out@ =~= before.push(((48 + n % 10) as u8) as char));
    assert(out@ =~= old(out)@ + decimal(n as nat));
}

/// `a` comes before `b` or equals it, comparing character by character.
pub open spec fn in_order(a: Seq<char>, b: Seq<char>) -> bool
    decreases a.len(),
{
    if a.len() == 0 {
        true
    } else if b.len() == 0 {
        false
    } else {
        a[0] < b[0] || (a[0] == b[0] && in_order(a.skip(1), b.skip(1)))
    }
}

pub fn is_in_order(a: &str, b: &str) -> (ordered: bool)
    ensures
        ordered == in_order(a@, b@),
{
    let x: Vec<char> = chars_of(a);
    let y: Vec<char> = chars_of(b);
    let mut i: usize = 0;
    proof {
        assert(a@.skip(0) =~= a@);
        assert(b@.skip(0) =~= b@);
    }
    while i < x.len() && i < y.len() && x[i] == y[i]
        invariant
            x@ == a@,
            y@ == b@,
            i <= x@.len(),
            i <= y@.len(),
            in_order(a@, b@) == in_order(a@.skip(i as int), b@.skip(i as int)),
        decreases x@.len() - i,
    {
        proof {
            assert(a@.skip(i as int).skip(1) =~= a@.skip(i + 1));
            assert(b@.skip(i as int).skip(1) =~= b@.skip(i + 1));
        }
        i += 1;
    }
    if i == x.len() {
        true
    } else if i == y.len() {
        false
    } else {
        x[i] < y[i]
    }
}

/// The order is total.
pub proof fn lemma_in_order_total(a: Seq<char>, b: Seq<char>)
    ensures
        in_order(a, b) || in_order(b, a),
    decreases a.len(),
{
    if a.len() > 0 && b.len() > 0 && a[0] == b[0] {
        lemma_in_order_total(a.skip(1), b.skip(1));
    }
}

/// The order is transitive.
pub proof fn lemma_in_order_transitive(a: Seq<char>, b: Seq<char>, c: Seq<char>)
    requires
        in_order(a, b),
        in_order(b, c),
    ensures
        in_order(a, c),
    decreases a.len(),
{
    if a.len() > 0 && a[0] == b[0] && b[0] == c[0] {
        lemma_in_order_transitive(a.skip(1), b.skip(1), c.skip(1));
    }
}

/// Lowering keeps every character but the ASCII capitals, each of which becomes the
/// letter 32 places on.
pub proof fn law_only_ascii_capitals_are_lowered(s: Seq<char>)
    ensures
        lowered(s).len() == s.len(),
        forall|i: int|
            0 <= i < s.len() ==> #[trigger] lowered(s)[i] as u32 == s[i] as u32 + (if 65
                <= s[i] as u32 <= 90 {
                32int
            } else {
                0int
            }),
{
    assert forall|i: int| 0 <= i < s.len() implies #[trigger] lowered(s)[i] as u32 == s[i] as u32
        + (if 65 <= s[i] as u32 <= 90 {
        32int
    } else {
        0int
    }) by {
        assert(lowered(s)[i] == lower_char(s[i]));
    }
}

/// Two characters are the same letter, or the small and the capital form of one ASCII
/// letter.
pub open spec fn same_letter(a: char, b: char) -> bool {
    ||| a == b
    ||| 65 <= a as u32 <= 90 && b as u32 == a as u32 + 32
    ||| 65 <= b as u32 <= 90 && a as u32 == b as u32 + 32
}

/// Texts are the same whatever their case exactly when they have the same length and
/// the same letters at the same places, the case of ASCII letters aside.
pub proof fn law_only_ascii_case_is_ignored(a: Seq<char>, b: Seq<char>)
    ensures
        same_ignoring_case(a, b) <==> a.len() == b.len() && forall|i: int|
            0 <= i < a.len() ==> same_letter(#[trigger] a[i], b[i]),
{
    law_only_ascii_capitals_are_lowered(a);
    law_only_ascii_capitals_are_lowered(b);
    if same_ignoring_case(a, b) {
        assert(a.len() == b.len());
        assert forall|i: int| 0 <= i < a.len() implies same_letter(#[trigger] a[i], b[i]) by {
            assert(lowered(a)[i] == lowered(b)[i]);
            assert(lower_char(a[i]) == lower_char(b[i]));
        }
    }
    if a.len() == b.len() && forall|i: int| 0 <= i < a.len() ==> same_letter(#[trigger] a[i], b[i])
    {
        assert forall|i: int| 0 <= i < a.len() implies lowered(a)[i] == lowered(b)[i] by {
            assert(same_letter(a[i], b[i]));
            assert(lowered(a)[i] as u32 == lowered(b)[i] as u32);
        }
        assert(lowered(a) =~= lowered(b));
    }
}

/// The number that a text of digits stands for.
pub open spec fn number_read(digits: Seq<char>) -> int
    decreases digits.len(),
{
    if digits.len() == 0 {
        0
    } else {
        10 * number_read(digits.drop_last()) + (digits.last() as u32 - 48)
    }
}

/// A number is written in digits that read back as the number, without a leading
/// zero.
pub proof fn law_decimal_reads_back(n: nat)
    ensures
        decimal(n).len() > 0,
        forall|i: int| 0 <= i < decimal(n).len() ==> 48 <= #[trigger] decimal(n)[i] as u32 <= 57,
        number_read(decimal(n)) == n,
        decimal(n).len() > 1 ==> decimal(n)[0] != '0',
    decreases n,
{
    reveal_with_fuel(number_read, 2);
    if n < 10 {
        assert(decimal(n).drop_last() =~= Seq::empty());
    } else {
        let front = decimal(n / 10);
        law_decimal_reads_back(n / 10);
        assert(decimal(n).drop_last() =~= front);
        assert forall|i: int| 0 <= i < decimal(n).len() implies 48 <= #[trigger] decimal(
            n,
        )[i] as u32 <= 57 by {
            if i < front.len() {
                assert(decimal(n)[i] == front[i]);
            }
        }
        assert(decimal(n)[0] == front[0]);
        if front.len() == 1 {
            assert(front.drop_last() =~= Seq::empty());
            assert(number_read(front) == front[0] as u32 - 48);
        }
    }
}

/// One text is in order before another exactly when it is the beginning of it, or has
/// the smaller character where they first differ.
pub proof fn law_order_goes_by_first_difference(a: Seq<char>, b: Seq<char>)
    ensures
        in_order(a, b) <==> a.is_prefix_of(b) || exists|k: int|
            {
                &&& 0 <= k < a.len()
                &&& k < b.len()
                &&& #[trigger] a[k] < b[k]
                &&& a.take(k) == b.take(k)
            },
    decreases a.len(),
{
    if a.len() == 0 {
        assert(b.subrange(0, 0) =~= a);
    } else if b.len() > 0 {
        let x = a.skip(1);
        let y = b.skip(1);
        if a[0] == b[0] {
            law_order_goes_by_first_difference(x, y);
            if x.is_prefix_of(y) {
                assert(a =~= b.subrange(0, a.len() as int)) by {
                    assert forall|i: int| 0 <= i < a.len() implies a[i] == b[i] by {
                        if i > 0 {
                            assert(x[i - 1] == y.subrange(0, x.len() as int)[i - 1]);
                        }
                    }
                }
            }
            if a.is_prefix_of(b) {
                assert(x =~= y.subrange(0, x.len() as int)) by {
                    assert forall|i: int| 0 <= i < x.len() implies x[i] == y[i] by {
                        assert(a[i + 1] == b.subrange(0, a.len() as int)[i + 1]);
                    }
                }
            }
            if exists|k: int|
                {
                    &&& 0 <= k < x.len()
                    &&& k < y.len()
                    &&& #[trigger] x[k] < y[k]
                    &&& x.take(k) == y.take(k)
                } {
                let k = choose|k: int|
                    {
                        &&& 0 <= k < x.len()
                        &&& k < y.len()
                        &&& #[trigger] x[k] < y[k]
                        &&& x.take(k) == y.take(k)
                    };
                assert(a[k + 1] < b[k + 1]);
                assert(a.take(k + 1) =~= b.take(k + 1)) by {
                    assert forall|i: int| 0 <= i < k + 1 implies a[i] == b[i] by {
                        if i > 0 {
                            assert(x.take(k)[i - 1] == y.take(k)[i - 1]);
                        }
                    }
                }
            }
            if exists|k: int|
                {
                    &&& 0 <= k < a.len()
                    &&& k < b.len()
                    &&& #[trigger] a[k] < b[k]
                    &&& a.take(k) == b.take(k)
                } {
                let k = choose|k: int|
                    {
                        &&& 0 <= k < a.len()
                        &&& k < b.len()
                        &&& #[trigger] a[k] < b[k]
                        &&& a.take(k) == b.take(k)
                    };
                assert(x[k - 1] < y[k - 1]);
                assert(x.take(k - 1) =~= y.take(k - 1)) by {
                    assert forall|i: int| 0 <= i < k - 1 implies x[i] == y[i] by {
                        assert(a.take(k)[i + 1] == b.take(k)[i + 1]);
                    }
                }
            }
        } else {
            if a.is_prefix_of(b) {
                assert(a[0] == b.subrange(0, a.len() as int)[0]);
            }
            assert(a.take(0) =~= b.take(0));
            if exists|k: int|
                {
                    &&& 0 <= k < a.len()
                    &&& k < b.len()
                    &&& #[trigger] a[k] < b[k]
                    &&& a.take(k) == b.take(k)
                } {
                let k = choose|k: int|
                    {
                        &&& 0 <= k < a.len()
                        &&& k < b.len()
                        &&& #[trigger] a[k] < b[k]
                        &&& a.take(k) == b.take(k)
                    };
                if k > 0 {
                    assert(a.take(k)[0] == b.take(k)[0]);
                }
            }
        }
    }
}

/// A text is taken as it is given, and a body as its bytes, those of a text in UTF-8.
pub proof fn law_texts_are_taken_as_they_are(s: String, t: &str, bytes: Vec<u8>, slice: &[u8])
    ensures
        IntoText::text(&s) == s@,
        IntoText::text(&&s) == s@,
        IntoText::text(&t) == t@,
        IntoBytes::bytes(&s) == vstd::utf8::encode_utf8(s@),
        IntoBytes::bytes(&t) == vstd::utf8::encode_utf8(t@),
        IntoBytes::bytes(&bytes) == bytes@,
        IntoBytes::bytes(&slice) == slice@,
{
}

} // verus!
