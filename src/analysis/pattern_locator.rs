//! Patterns written as hex, ASCII or bit strings, and their approximate
//! (Hamming-distance bounded) search in a bit buffer.

use crate::bits::{bits_of_bytes, byte_bit, byte_bits, Bits, MAX_BITS};
use crate::text::{message_with, trim, trimmed};
use vstd::prelude::*;
use vstd::string::*;
use vstd::utf8::encode_utf8;

verus! {

/// How a pattern's text is written.
#[derive(Debug, Clone, Copy, PartialEq, Eq, Structural)]
pub enum PatternFormat {
    /// `0x` followed by hex digits.
    Hex,
    /// Text whose bytes are the pattern.
    Ascii,
    /// `0` and `1`, with spaces and underscores as separators.
    Bits,
}

impl PatternFormat {
    pub fn name(&self) -> (r: &'static str)
        ensures
            r@ == match self {
                PatternFormat::Hex => "Hex (0x...)"@,
                PatternFormat::Ascii => "ASCII"@,
                PatternFormat::Bits => "Bits (0/1)"@,
            },
    {
        match self {
            PatternFormat::Hex => "Hex (0x...)",
            PatternFormat::Ascii => "ASCII",
            PatternFormat::Bits => "Bits (0/1)",
        }
    }
}

/// The value of a hex digit (`0-9`, `a-f`, `A-F`).
pub open spec fn hex_value(c: char) -> Option<u8> {
    let u = c as u32;
    if 48 <= u <= 57 {
        Some((u - 48) as u8)
    } else if 97 <= u <= 102 {
        Some((u - 87) as u8)
    } else if 65 <= u <= 70 {
        Some((u - 55) as u8)
    } else {
        None
    }
}

/// The four bits of a hex digit's value, most significant first.
pub open spec fn nibble_bits(v: u8) -> Seq<bool> {
    byte_bits(v).subrange(4, 8)
}

/// The bits of a run of hex digits, four per digit.
pub open spec fn hex_digit_bits(s: Seq<char>) -> Seq<bool>
    decreases s.len(),
{
    if s.len() == 0 {
        Seq::empty()
    } else {
        hex_digit_bits(s.drop_last()) + nibble_bits(hex_value(s.last())->Some_0)
    }
}

/// Whether `t` is `0x` or `0X` followed by one or more hex digits, no more
/// than a bit vector can hold.
pub open spec fn is_hex_text(t: Seq<char>) -> bool {
    &&& t.len() > 2
    &&& t.len() - 2 <= MAX_BITS / 4
    &&& t[0] == '0'
    &&& (t[1] == 'x' || t[1] == 'X')
    &&& forall|i: int| 2 <= i < t.len() ==> (#[trigger] hex_value(t[i])) is Some
}

/// The message for the first character from `k` on that is not a hex
/// digit (empty if there is none).
pub open spec fn hex_failure_from(t: Seq<char>, k: int) -> Seq<char>
    decreases t.len() - k,
{
    if k < 0 || k >= t.len() {
        Seq::empty()
    } else if hex_value(t[k]) is None {
        "Invalid hex character: "@ + seq![t[k]]
    } else {
        hex_failure_from(t, k + 1)
    }
}

/// Why trimmed hex text is rejected (empty if it is not).
pub open spec fn hex_failure(t: Seq<char>) -> Seq<char> {
    if t.len() < 2 || t[0] != '0' || (t[1] != 'x' && t[1] != 'X') {
        "Hex pattern must start with 0x"@
    } else if t.len() == 2 {
        "Hex pattern is empty"@
    } else if t.len() - 2 > MAX_BITS / 4 {
        "Hex pattern is too long"@
    } else {
        hex_failure_from(t, 2)
    }
}

/// The message for the first character from `k` on that may not stand in
/// a bit string (empty if there is none).
pub open spec fn bit_failure_from(t: Seq<char>, k: int) -> Seq<char>
    decreases t.len() - k,
{
    if k < 0 || k >= t.len() {
        Seq::empty()
    } else if !is_bit_char(t[k]) {
        "Invalid bit character: "@ + seq![t[k]] + ". Use only 0 and 1"@
    } else {
        bit_failure_from(t, k + 1)
    }
}

/// Why a trimmed bit string is rejected (empty if it is not).
pub open spec fn bit_failure(t: Seq<char>) -> Seq<char> {
    if t.len() > MAX_BITS {
        "Bit pattern is too long"@
    } else if bit_failure_from(t, 0).len() > 0 {
        bit_failure_from(t, 0)
    } else if bit_string_bits(t).len() == 0 {
        "Bit pattern is empty"@
    } else {
        Seq::empty()
    }
}

/// Why a pattern's text is rejected in a format (empty if it is not).
pub open spec fn pattern_failure(input: Seq<char>, format: PatternFormat) -> Seq<char> {
    match format {
        PatternFormat::Hex => hex_failure(trimmed(input)),
        PatternFormat::Ascii => if input.len() == 0 {
            "ASCII pattern is empty"@
        } else if encode_utf8(input).len() > MAX_BITS / 8 {
            "ASCII pattern is too long"@
        } else {
            Seq::empty()
        },
        PatternFormat::Bits => bit_failure(trimmed(input)),
    }
}

/// Whether `c` may stand in a bit string.
pub open spec fn is_bit_char(c: char) -> bool {
    c == '0' || c == '1' || c == ' ' || c == '_'
}

/// The bits of a bit string, separators dropped.
pub open spec fn bit_string_bits(s: Seq<char>) -> Seq<bool>
    decreases s.len(),
{
    if s.len() == 0 {
        Seq::empty()
    } else if s.last() == '0' {
        bit_string_bits(s.drop_last()).push(false)
    } else if s.last() == '1' {
        bit_string_bits(s.drop_last()).push(true)
    } else {
        bit_string_bits(s.drop_last())
    }
}

/// Whether `t` is a bit string: only bit characters and separators, at
/// least one bit, and no more characters than a bit vector can hold.
pub open spec fn is_bit_text(t: Seq<char>) -> bool {
    &&& forall|i: int| 0 <= i < t.len() ==> is_bit_char(#[trigger] t[i])
    &&& bit_string_bits(t).len() > 0
    &&& t.len() <= MAX_BITS
}

/// The needle that a pattern's text denotes in a format, or `None` where
/// the text is rejected: hex and bit strings are read after trimming white
/// space; ASCII text is read byte by byte and must not be empty. Text whose
/// needle would not fit a bit vector is rejected too.
pub open spec fn pattern_bits(input: Seq<char>, format: PatternFormat) -> Option<Seq<bool>> {
    match format {
        PatternFormat::Hex => {
            let t = trimmed(input);
            if is_hex_text(t) {
                Some(hex_digit_bits(t.subrange(2, t.len() as int)))
            } else {
                None
            }
        },
        PatternFormat::Ascii => {
            if input.len() > 0 && encode_utf8(input).len() <= MAX_BITS / 8 {
                Some(bits_of_bytes(encode_utf8(input)))
            } else {
                None
            }
        },
        PatternFormat::Bits => {
            let t = trimmed(input);
            if is_bit_text(t) {
                Some(bit_string_bits(t))
            } else {
                None
            }
        },
    }
}

/// Number of positions where `needle` and `hay` from `start` differ, over
/// the first `k` bits of the needle.
pub open spec fn mismatch_count(needle: Seq<bool>, hay: Seq<bool>, start: int, k: int) -> nat
    decreases k,
{
    if k <= 0 {
        0
    } else {
        mismatch_count(needle, hay, start, k - 1) + if needle[k - 1] != hay[start + k - 1] {
            1nat
        } else {
            0nat
        }
    }
}

/// The matches at start offsets below `k`, in increasing order, each as
/// (offset, mismatches): windows within `garbles` mismatches of the needle.
pub open spec fn matches_below(needle: Seq<bool>, hay: Seq<bool>, garbles: nat, k: int) -> Seq<(int, nat)>
    decreases k,
{
    if k <= 0 {
        Seq::empty()
    } else {
        let prev = matches_below(needle, hay, garbles, k - 1);
        let c = mismatch_count(needle, hay, k - 1, needle.len() as int);
        if c <= garbles {
            prev.push((k - 1, c))
        } else {
            prev
        }
    }
}

/// All matches of `needle` in `hay`: none when the needle is empty or longer
/// than the haystack, else one per start offset `0..=hay.len() - needle.len()`
/// whose window differs in at most `garbles` bits.
pub open spec fn find_matches(needle: Seq<bool>, hay: Seq<bool>, garbles: nat) -> Seq<(int, nat)> {
    if needle.len() == 0 || needle.len() > hay.len() {
        Seq::empty()
    } else {
        matches_below(needle, hay, garbles, hay.len() - needle.len() + 1)
    }
}

/// A needle that is empty or longer than the haystack (in particular, an
/// empty haystack) is found nowhere.
pub proof fn lemma_unfit_needle_finds_nothing(needle: Seq<bool>, hay: Seq<bool>, garbles: nat)
    requires
        needle.len() == 0 || hay.len() == 0 || needle.len() > hay.len(),
    ensures
        find_matches(needle, hay, garbles).len() == 0,
{
}

/// A place where a pattern was found.
#[derive(Debug, Clone)]
pub struct PatternMatch {
    /// Bit offset of the window in the haystack.
    pub position: usize,
    /// The window's bits as found, garbled ones included.
    pub actual_bits: Bits,
    /// Offset from the previous match; `None` for the first.
    pub delta: Option<usize>,
    /// Number of bits in which the window differs from the needle.
    pub mismatches: usize,
}

impl PatternMatch {
    /// The matched bits as a string of `0` and `1`.
    pub fn bits_string(&self) -> (r: String)
        ensures
            r@ == Seq::new(self.actual_bits@.len(), |i: int| if self.actual_bits@[i] { '1' } else { '0' }),
    {
        let ghost want = Seq::new(self.actual_bits@.len(), |i: int| if self.actual_bits@[i] { '1' } else { '0' });
        let mut s = String::new();
        let n = self.actual_bits.len();
        let mut i: usize = 0;
        while i < n
            invariant
                n == self.actual_bits@.len(),
                i <= n,
                want == Seq::new(self.actual_bits@.len(), |i: int| if self.actual_bits@[i] { '1' } else { '0' }),
                s@ == want.subrange(0, i as int),
            decreases n - i,
        {
            proof {
                reveal_strlit("0");
                reveal_strlit("1");
            }
            if self.actual_bits.get(i) {
                s.append("1");
            } else {
                s.append("0");
            }
            assert(want.subrange(0, i + 1) =~= want.subrange(0, i as int).push(want[i as int]));
            i = i + 1;
        }
        assert(want.subrange(0, n as int) =~= want);
        s
    }
}

/// Whether `found` describes the matches `want` in `hay`: same count, same
/// offsets and mismatch counts, the windows' bits, and the offset from the
/// previous match.
pub open spec fn describes(found: Seq<PatternMatch>, want: Seq<(int, nat)>, hay: Seq<bool>, n: int) -> bool {
    &&& found.len() == want.len()
    &&& forall|i: int|
        0 <= i < found.len() ==> {
            let m = #[trigger] found[i];
            &&& m.position == want[i].0
            &&& m.mismatches == want[i].1
            &&& m.actual_bits@ == hay.subrange(want[i].0, want[i].0 + n)
            &&& i == 0 ==> m.delta is None
            &&& i > 0 ==> m.delta is Some && m.delta->Some_0 == want[i].0 - want[i - 1].0
        }
}

/// A search pattern: its text, format, garble tolerance, the needle derived
/// from the text, and the matches of the latest search.
#[derive(Debug, Clone)]
pub struct Pattern {
    pub name: String,
    pub format: PatternFormat,
    pub input: String,
    /// Largest number of differing bits a match may have.
    pub garbles: usize,
    /// The needle.
    pub bits: Bits,
    /// Matches of the latest search, in increasing offset order.
    pub matches: Vec<PatternMatch>,
}

impl Pattern {
    /// A pattern whose needle is parsed from `input` in `format`; fails where
    /// the text is rejected. It starts with no matches.
    pub fn new(name: String, format: PatternFormat, input: String, garbles: usize) -> (r: Result<Pattern, String>)
        ensures
            r is Ok <==> pattern_bits(input@, format) is Some,
            r matches Err(e) ==> e@ == pattern_failure(input@, format),
            r matches Ok(p) ==> {
                &&& Some(p.bits@) == pattern_bits(input@, format)
                &&& p.name == name
                &&& p.format == format
                &&& p.input == input
                &&& p.garbles == garbles
                &&& p.matches@.len() == 0
            },
    {
        let bits = match Self::parse_input(input.as_str(), format) {
            Ok(b) => b,
            Err(e) => {
                return Err(e);
            },
        };
        Ok(Pattern { name, format, input, garbles, bits, matches: Vec::new() })
    }

    /// Parses a pattern's text in the given format.
    fn parse_input(input: &str, format: PatternFormat) -> (r: Result<Bits, String>)
        ensures
            r is Ok <==> pattern_bits(input@, format) is Some,
            r matches Ok(b) ==> Some(b@) == pattern_bits(input@, format),
            r matches Err(e) ==> e@ == pattern_failure(input@, format),
    {
        match format {
            PatternFormat::Hex => {
                let t = trim(input);
                Self::hex_bits(t.as_str())
            },
            PatternFormat::Ascii => Self::parse_ascii(input),
            PatternFormat::Bits => {
                let t = trim(input);
                Self::bit_string(t.as_str())
            },
        }
    }

    /// Reads trimmed hex text: `0x` or `0X`, then one or more hex digits,
    /// four bits each.
    pub fn hex_bits(t: &str) -> (r: Result<Bits, String>)
        ensures
            r is Ok <==> is_hex_text(t@),
            r matches Ok(b) ==> b@ == hex_digit_bits(t@.subrange(2, t@.len() as int)),
            r matches Err(e) ==> e@ == hex_failure(t@),
    {
        proof {
            reveal_strlit("Hex pattern must start with 0x");
            reveal_strlit("Hex pattern is empty");
            reveal_strlit("Hex pattern is too long");
            reveal_strlit("Invalid hex character: ");
            reveal_strlit("");
        }
        let n = t.unicode_len();
        if n < 2 || t.get_char(0) != '0' || (t.get_char(1) != 'x' && t.get_char(1) != 'X') {
            return Err(String::from_str("Hex pattern must start with 0x"));
        }
        if n == 2 {
            return Err(String::from_str("Hex pattern is empty"));
        }
        if n - 2 > MAX_BITS / 4 {
            return Err(String::from_str("Hex pattern is too long"));
        }
        let mut bits = Bits::new();
        let mut k: usize = 2;
        while k < n
            invariant
                n == t@.len(),
                2 <= k <= n,
                forall|i: int| 2 <= i < k ==> (#[trigger] hex_value(t@[i])) is Some,
                hex_failure(t@) == hex_failure_from(t@, k as int),
                2 < n,
                t@[0] == '0',
                t@[1] == 'x' || t@[1] == 'X',
                bits@ == hex_digit_bits(t@.subrange(2, k as int)),
                bits@.len() == 4 * (k - 2),
                n - 2 <= MAX_BITS / 4,
            decreases n - k,
        {
            let c = t.get_char(k);
            let u = c as u32;
            let v: u8 = if 48 <= u && u <= 57 {
                (u - 48) as u8
            } else if 97 <= u && u <= 102 {
                (u - 87) as u8
            } else if 65 <= u && u <= 70 {
                (u - 55) as u8
            } else {
                assert(hex_value(t@[k as int]) is None);
                proof {
                    reveal_strlit("");
                }
                let m = message_with("Invalid hex character: ", t, k, k + 1, "");
                assert(m@ =~= "Invalid hex character: "@ + seq![t@[k as int]]);
                return Err(m);
            };
            assert(hex_value(c) == Some(v));
            let ghost before = bits@;
            let mut q: usize = 4;
            while q < 8
                invariant
                    4 <= q <= 8,
                    bits@ == before + byte_bits(v).subrange(4, q as int),
                    before.len() <= MAX_BITS - 4,
                decreases 8 - q,
            {
                let bit = (v >> ((7 - q) as u8)) & 1u8 == 1u8;
                assert(bit == byte_bit(v, q as int));
                bits.push(bit);
                assert(byte_bits(v).subrange(4, q + 1) =~= byte_bits(v).subrange(4, q as int).push(bit));
                q = q + 1;
            }
            assert(t@.subrange(2, k + 1).drop_last() =~= t@.subrange(2, k as int));
            k = k + 1;
        }
        Ok(bits)
    }

    /// Reads text as its bytes, eight bits each; empty text is rejected.
    fn parse_ascii(input: &str) -> (r: Result<Bits, String>)
        ensures
            r is Ok <==> input@.len() > 0 && encode_utf8(input@).len() <= MAX_BITS / 8,
            r matches Ok(b) ==> b@ == bits_of_bytes(encode_utf8(input@)),
            r matches Err(e) ==> e@ == pattern_failure(input@, PatternFormat::Ascii),
    {
        proof {
            reveal_strlit("ASCII pattern is empty");
            reveal_strlit("ASCII pattern is too long");
        }
        if input.is_empty() {
            return Err(String::from_str("ASCII pattern is empty"));
        }
        let bytes = input.as_bytes();
        if bytes.len() > MAX_BITS / 8 {
            return Err(String::from_str("ASCII pattern is too long"));
        }
        Ok(Bits::from_bytes(bytes))
    }

    /// Reads a trimmed bit string: `0` and `1`, spaces and underscores
    /// ignored; rejected if any other character occurs or no bit remains.
    pub fn bit_string(t: &str) -> (r: Result<Bits, String>)
        ensures
            r is Ok <==> is_bit_text(t@),
            r matches Ok(b) ==> b@ == bit_string_bits(t@),
            r matches Err(e) ==> e@ == bit_failure(t@),
    {
        proof {
            reveal_strlit("Bit pattern is too long");
            reveal_strlit("Bit pattern is empty");
            reveal_strlit("Invalid bit character: ");
            reveal_strlit(". Use only 0 and 1");
        }
        let n = t.unicode_len();
        if n > MAX_BITS {
            return Err(String::from_str("Bit pattern is too long"));
        }
        let mut bits = Bits::new();
        let mut k: usize = 0;
        while k < n
            invariant
                n == t@.len(),
                n <= MAX_BITS,
                k <= n,
                forall|i: int| 0 <= i < k ==> is_bit_char(#[trigger] t@[i]),
                bit_failure_from(t@, 0) == bit_failure_from(t@, k as int),
                bits@ == bit_string_bits(t@.subrange(0, k as int)),
                bits@.len() <= k,
                n <= usize::MAX,
            decreases n - k,
        {
            let c = t.get_char(k);
            assert(t@.subrange(0, k + 1).drop_last() =~= t@.subrange(0, k as int));
            if c == '0' {
                bits.push(false);
            } else if c == '1' {
                bits.push(true);
            } else if c == ' ' || c == '_' {
            } else {
                let m = message_with("Invalid bit character: ", t, k, k + 1, ". Use only 0 and 1");
                assert(m@ =~= "Invalid bit character: "@ + seq![t@[k as int]] + ". Use only 0 and 1"@);
                return Err(m);
            }
            k = k + 1;
        }
        assert(t@.subrange(0, n as int) =~= t@);
        assert(bit_failure_from(t@, n as int).len() == 0);
        if bits.len() == 0 {
            return Err(String::from_str("Bit pattern is empty"));
        }
        Ok(bits)
    }

    /// Parses `input` again in `format` and, on success, takes the result as
    /// the needle; on failure the pattern is left as it was.
    pub fn update_bits(&mut self) -> (r: Result<(), String>)
        ensures
            r is Ok <==> pattern_bits(old(self).input@, old(self).format) is Some,
            r is Ok ==> Some(final(self).bits@) == pattern_bits(old(self).input@, old(self).format),
            r is Err ==> final(self).bits == old(self).bits,
            r matches Err(e) ==> e@ == pattern_failure(old(self).input@, old(self).format),
            final(self).name == old(self).name,
            final(self).format == old(self).format,
            final(self).input == old(self).input,
            final(self).garbles == old(self).garbles,
            final(self).matches == old(self).matches,
    {
        match Self::parse_input(self.input.as_str(), self.format) {
            Ok(b) => {
                self.bits = b;
                Ok(())
            },
            Err(e) => Err(e),
        }
    }

    /// Replaces the matches with those of the needle in `haystack`.
    pub fn search(&mut self, haystack: &Bits)
        ensures
            describes(
                final(self).matches@,
                find_matches(old(self).bits@, haystack@, old(self).garbles as nat),
                haystack@,
                old(self).bits@.len() as int,
            ),
            final(self).name == old(self).name,
            final(self).format == old(self).format,
            final(self).input == old(self).input,
            final(self).garbles == old(self).garbles,
            final(self).bits == old(self).bits,
    {
        self.matches = Vec::new();
        let n = self.bits.len();
        let h = haystack.len();
        if n == 0 || n > h {
            return;
        }
        let mut found: Vec<PatternMatch> = Vec::new();
        let ghost needle = self.bits@;
        let ghost hay = haystack@;
        let g = self.garbles;
        let last = h - n;
        let mut last_position: Option<usize> = None;
        let mut start: usize = 0;
        while start <= last
            invariant
                n == needle.len(),
                h == hay.len(),
                needle == self.bits@,
                hay == haystack@,
                g == self.garbles,
                0 < n <= h,
                last == h - n,
                start <= last + 1,
                describes(found@, matches_below(needle, hay, g as nat, start as int), hay, n as int),
                last_position == if found@.len() == 0 {
                    None
                } else {
                    Some(matches_below(needle, hay, g as nat, start as int).last().0 as usize)
                },
                forall|i: int| 0 <= i < matches_below(needle, hay, g as nat, start as int).len()
                    ==> 0 <= #[trigger] matches_below(needle, hay, g as nat, start as int)[i].0 < start,
            decreases last + 1 - start,
        {
            let mut k: usize = 0;
            let mut count: usize = 0;
            while k < n
                invariant
                    n == needle.len(),
                    h == hay.len(),
                    needle == self.bits@,
                    hay == haystack@,
                    start + n <= h,
                    k <= n,
                    count == mismatch_count(needle, hay, start as int, k as int),
                    count <= k,
                decreases n - k,
            {
                if self.bits.get(k) != haystack.get(start + k) {
                    count = count + 1;
                }
                k = k + 1;
            }
            let ghost prev = matches_below(needle, hay, g as nat, start as int);
            let ghost next = matches_below(needle, hay, g as nat, start + 1);
            if count <= g {
                let delta = match last_position {
                    Some(p) => Some(start - p),
                    None => None,
                };
                let window = haystack.slice(start, start + n);
                let ghost old_matches = found@;
                found.push(PatternMatch { position: start, actual_bits: window, delta, mismatches: count });
                last_position = Some(start);
                proof {
                    assert(next == prev.push((start as int, count as nat)));
                    assert forall|i: int| 0 <= i < found@.len() implies {
                        let m = #[trigger] found@[i];
                        &&& m.position == next[i].0
                        &&& m.mismatches == next[i].1
                        &&& m.actual_bits@ == hay.subrange(next[i].0, next[i].0 + n)
                        &&& i == 0 ==> m.delta is None
                        &&& i > 0 ==> m.delta is Some && m.delta->Some_0 == next[i].0 - next[i - 1].0
                    } by {
                        if i < old_matches.len() {
                            assert(found@[i] == old_matches[i]);
                        }
                    }
                }
            } else {
                assert(next == prev);
            }
            start = start + 1;
        }
        self.matches = found;
    }
}

} // verus!
