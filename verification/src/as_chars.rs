use vstd::prelude::*;

verus! {

/// What `String::from_utf16_lossy` decodes a UTF-16 unit sequence to.
pub uninterp spec fn lossy_utf16(units: Seq<u16>) -> Seq<char>;

/// What `String::from_utf8_lossy` decodes a byte sequence to.
pub uninterp spec fn lossy_utf8(units: Seq<u8>) -> Seq<char>;

/// What `str::encode_utf16` encodes a character sequence to.
pub uninterp spec fn utf16_of(chars: Seq<char>) -> Seq<u16>;

/// Relies on str::encode_utf16: the UTF-16 code units of a string,
/// determined by its characters alone.
#[verifier::external_body]
fn utf16_units_of(s: &str) -> (r: Vec<u16>)
    ensures
        r@ == utf16_of(s@),
{
    s.encode_utf16().collect()
}

/// Relies on str::chars: yields exactly the characters of the string.
#[verifier::external_body]
fn chars_of(s: &str) -> (r: Vec<char>)
    ensures
        r@ == s@,
{
    s.chars().collect()
}

/// Relies on String::from_utf8_lossy: the decoding depends on the bytes alone.
#[verifier::external_body]
fn decode_utf8_lossy(units: &[u8]) -> (r: String)
    ensures
        r@ == lossy_utf8(units@),
{
    String::from_utf8_lossy(units).into_owned()
}

/// Relies on String::from_utf16_lossy: the decoding depends on the units alone.
#[verifier::external_body]
fn decode_utf16_lossy(units: &[u16]) -> (r: String)
    ensures
        r@ == lossy_utf16(units@),
{
    String::from_utf16_lossy(units)
}

/// Relies on String::from_iter over characters: collects exactly the
/// characters it is given, in order.
#[verifier::external_body]
fn collect_chars(units: &[char]) -> (r: String)
    ensures
        r@ == units@,
{
    units.iter().collect()
}

/// A key that can be broken into a sequence of dictionary units of type `K`.
pub trait AsChars<K> {
    /// The unit sequence this key denotes.
    spec fn units(&self) -> Seq<K>;

    fn as_chars(&self) -> (r: Vec<K>)
        ensures
            r@ == self.units(),
    ;
}

impl AsChars<u8> for str {
    open spec fn units(&self) -> Seq<u8> {
        vstd::utf8::encode_utf8(self@)
    }

    fn as_chars(&self) -> (r: Vec<u8>) {
        vstd::slice::slice_to_vec(self.as_bytes())
    }
}

impl AsChars<u16> for str {
    open spec fn units(&self) -> Seq<u16> {
        utf16_of(self@)
    }

    fn as_chars(&self) -> (r: Vec<u16>) {
        utf16_units_of(self)
    }
}

impl AsChars<char> for str {
    open spec fn units(&self) -> Seq<char> {
        self@
    }

    fn as_chars(&self) -> (r: Vec<char>) {
        chars_of(self)
    }
}

impl<K: Copy> AsChars<K> for [K] {
    open spec fn units(&self) -> Seq<K> {
        self@
    }

    fn as_chars(&self) -> (r: Vec<K>) {
        vstd::slice::slice_to_vec(self)
    }
}

/// A unit sequence that can be rendered back as text.
pub trait IntoString: Sized {
    /// The characters a unit sequence decodes to.
    spec fn decoded(units: Seq<Self>) -> Seq<char>;

    fn into_string(chars: &[Self]) -> (r: String)
        ensures
            r@ == Self::decoded(chars@),
    ;
}

impl IntoString for u8 {
    open spec fn decoded(units: Seq<u8>) -> Seq<char> {
        lossy_utf8(units)
    }

    fn into_string(chars: &[u8]) -> (r: String) {
        decode_utf8_lossy(chars)
    }
}

impl IntoString for u16 {
    open spec fn decoded(units: Seq<u16>) -> Seq<char> {
        lossy_utf16(units)
    }

    fn into_string(chars: &[u16]) -> (r: String) {
        decode_utf16_lossy(chars)
    }
}

impl IntoString for char {
    open spec fn decoded(units: Seq<char>) -> Seq<char> {
        units
    }

    fn into_string(chars: &[char]) -> (r: String) {
        collect_chars(chars)
    }
}

/// A dictionary unit: a character encoding element with a bounded numeric
/// value, used to index transition cells of the double array.
pub trait AsUsize: Copy + Sized {
    /// The numeric value of this unit.
    spec fn as_int(self) -> int;

    /// Whether `n` is the numeric value of some unit of this type.
    spec fn unit_valid(n: int) -> bool;

    /// The largest numeric value a unit of this type can take.
    spec fn unit_max() -> int;

    proof fn lemma_unit_bounds(self)
        ensures
            0 <= self.as_int() <= Self::unit_max(),
            Self::unit_valid(self.as_int()),
    ;

    proof fn lemma_unit_max_bound()
        ensures
            0 <= Self::unit_max() <= 0x10FFFF,
    ;

    proof fn lemma_unit_injective(a: Self, b: Self)
        ensures
            a.as_int() == b.as_int() ==> a == b,
    ;

    proof fn lemma_valid_in_range(n: int)
        ensures
            Self::unit_valid(n) ==> 0 <= n <= Self::unit_max(),
    ;

    fn as_usize(self) -> (r: usize)
        ensures
            r as int == self.as_int(),
    ;

    fn from_usize(n: usize) -> (r: Self)
        requires
            Self::unit_valid(n as int),
        ensures
            r.as_int() == n as int,
    ;

    fn max_value() -> (r: usize)
        ensures
            r as int == Self::unit_max(),
    ;

    /// Whether `n` is the numeric value of some unit, decided at run time,
    /// for validating data read from outside.
    fn is_unit_value(n: usize) -> (r: bool)
        ensures
            r == Self::unit_valid(n as int),
    ;
}

impl AsUsize for u8 {
    open spec fn as_int(self) -> int {
        self as int
    }

    open spec fn unit_valid(n: int) -> bool {
        0 <= n <= 255
    }

    open spec fn unit_max() -> int {
        255
    }

    proof fn lemma_unit_bounds(self) {
    }

    proof fn lemma_unit_max_bound() {
    }

    proof fn lemma_unit_injective(a: Self, b: Self) {
    }

    proof fn lemma_valid_in_range(n: int) {
    }

    fn as_usize(self) -> (r: usize) {
        self as usize
    }

    fn from_usize(n: usize) -> (r: Self) {
        n as u8
    }

    fn max_value() -> (r: usize) {
        255
    }

    fn is_unit_value(n: usize) -> (r: bool) {
        n <= 255
    }
}

impl AsUsize for u16 {
    open spec fn as_int(self) -> int {
        self as int
    }

    open spec fn unit_valid(n: int) -> bool {
        0 <= n <= 65535
    }

    open spec fn unit_max() -> int {
        65535
    }

    proof fn lemma_unit_bounds(self) {
    }

    proof fn lemma_unit_max_bound() {
    }

    proof fn lemma_unit_injective(a: Self, b: Self) {
    }

    proof fn lemma_valid_in_range(n: int) {
    }

    fn as_usize(self) -> (r: usize) {
        self as usize
    }

    fn from_usize(n: usize) -> (r: Self) {
        n as u16
    }

    fn max_value() -> (r: usize) {
        65535
    }

    fn is_unit_value(n: usize) -> (r: bool) {
        n <= 65535
    }
}

/// Relies on char::from_u32: returns the scalar value `n` as a character
/// exactly when `n` is a Unicode scalar value (not a surrogate, at most
/// 0x10FFFF), and None otherwise.
#[verifier::external_body]
fn char_from_u32(n: u32) -> (r: Option<char>)
    ensures
        ((0 <= n < 0xD800 || 0xE000 <= n <= 0x10FFFF) <==> r is Some),
        r is Some ==> (r->0 as u32) == n,
{
    char::from_u32(n)
}

impl AsUsize for char {
    open spec fn as_int(self) -> int {
        (self as u32) as int
    }

    open spec fn unit_valid(n: int) -> bool {
        0 <= n < 0xD800 || 0xE000 <= n <= 0x10FFFF
    }

    open spec fn unit_max() -> int {
        0x10FFFF
    }

    proof fn lemma_unit_bounds(self) {
        vstd::utf8::char_is_scalar(self);
    }

    proof fn lemma_unit_max_bound() {
    }

    proof fn lemma_unit_injective(a: Self, b: Self) {
        if a.as_int() == b.as_int() {
            vstd::utf8::char_u32_cast(a, a as u32);
            vstd::utf8::char_u32_cast(b, b as u32);
        }
    }

    proof fn lemma_valid_in_range(n: int) {
    }

    fn as_usize(self) -> (r: usize) {
        (self as u32) as usize
    }

    fn from_usize(n: usize) -> (r: Self) {
        char_from_u32(n as u32).unwrap()
    }

    fn max_value() -> (r: usize) {
        0x10FFFF
    }

    fn is_unit_value(n: usize) -> (r: bool) {
        n < 0xD800 || (0xE000 <= n && n <= 0x10FFFF)
    }
}

} // verus!
