//! Reading device-tree properties: `compatible` strings and `reg` cells.
use vstd::prelude::*;

verus! {

/// Index of the first `c` in `s` at or after `from`.
pub open spec fn first_index_from(s: Seq<char>, c: char, from: int) -> Option<int>
    decreases s.len() - from,
{
    if from < 0 || from >= s.len() {
        None
    } else if s[from] == c {
        Some(from)
    } else {
        first_index_from(s, c, from + 1)
    }
}

/// Index of the first `c` in `s`.
pub open spec fn first_index(s: Seq<char>, c: char) -> Option<int> {
    first_index_from(s, c, 0)
}

/// `first_index_from` finds `c`, and no `c` stands between `from` and what
/// it finds; where it finds none, none stands at or after `from`.
pub proof fn lemma_first_index_from(s: Seq<char>, c: char, from: int)
    requires
        0 <= from,
    ensures
        match first_index_from(s, c, from) {
            Some(at) => from <= at < s.len() && s[at] == c && forall|j: int| from <= j < at ==> s[j] != c,
            None => forall|j: int| from <= j < s.len() ==> s[j] != c,
        },
    decreases s.len() - from,
{
    if from < s.len() && s[from] != c {
        lemma_first_index_from(s, c, from + 1);
    }
}

/// One entry of a `compatible` property: "manufacturer,model".
#[derive(Debug, Clone, Copy)]
pub struct CompatibleEntry<'a> {
    pub manufacturer: &'a str,
    pub model: &'a str,
}

/// The two halves of an entry's text: split at the first comma, or both
/// "Malformed Input" where it has none.
pub open spec fn entry_fields(text: Seq<char>) -> (Seq<char>, Seq<char>) {
    match first_index(text, ',') {
        Some(comma) => (text.subrange(0, comma), text.subrange(comma + 1, text.len() as int)),
        None => ("Malformed Input"@, "Malformed Input"@),
    }
}

/// What `parse` makes of `value`: manufacturer, model, and the rest of the
/// stream if anything follows the entry's terminating NUL.
pub open spec fn parse_spec(value: Seq<char>) -> (Seq<char>, Seq<char>, Option<Seq<char>>) {
    match first_index(value, '\0') {
        Some(nul) => {
            let (manufacturer, model) = entry_fields(value.subrange(0, nul));
            (
                manufacturer,
                model,
                if nul == value.len() - 1 {
                    None
                } else {
                    Some(value.subrange(nul + 1, value.len() as int))
                },
            )
        },
        None => (Seq::empty(), Seq::empty(), None),
    }
}

/// What `parse_many` makes of `value`: the fields of every entry, in order.
pub open spec fn parse_many_spec(value: Seq<char>) -> Seq<(Seq<char>, Seq<char>)>
    decreases value.len(),
{
    let (manufacturer, model, rest) = parse_spec(value);
    match rest {
        Some(rest) => if rest.len() < value.len() {
            seq![(manufacturer, model)] + parse_many_spec(rest)
        } else {
            seq![(manufacturer, model)]
        },
        None => seq![(manufacturer, model)],
    }
}

/// Index of the first `c` in `s`, counted in characters.
fn find_char(s: &str, c: char) -> (r: Option<usize>)
    ensures
        first_index(s@, c) == match r {
            Some(at) => Some(at as int),
            None => None,
        },
{
    let len: usize = s.unicode_len();
    let mut i: usize = 0;
    while i < len
        invariant
            i <= len,
            len == s@.len(),
            first_index(s@, c) == first_index_from(s@, c, i as int),
        decreases len - i,
    {
        if s.get_char(i) == c {
            return Some(i);
        }
        i += 1;
    }
    None
}

impl<'a> CompatibleEntry<'a> {
    /// The fields of the entry, as characters.
    pub open spec fn fields(self) -> (Seq<char>, Seq<char>) {
        (self.manufacturer@, self.model@)
    }

    /// Takes one entry off the front of `value`.
    ///
    /// The entry is the text before the first NUL, split at its first comma
    /// into manufacturer and model; without a comma both read "Malformed
    /// Input". What follows the NUL is returned as the rest of the stream,
    /// unless the NUL is the last character. A `value` without a NUL gives
    /// an entry of two empty fields and no rest.
    pub fn parse(value: &'a str) -> (r: (Self, Option<&'a str>))
        ensures
            (r.0.manufacturer@, r.0.model@, match r.1 {
                Some(rest) => Some(rest@),
                None => None,
            }) == parse_spec(value@),
            r.1 matches Some(rest) ==> rest@.len() < value@.len(),
    {
        let len: usize = value.unicode_len();
        match find_char(value, '\0') {
            Some(null_index) => {
                proof {
                    lemma_first_index_from(value@, '\0', 0);
                }
                let relevant = value.substring_char(0, null_index);
                let remainder = if null_index == len - 1 {
                    None
                } else {
                    Some(value.substring_char(null_index + 1, len))
                };
                match find_char(relevant, ',') {
                    Some(comma) => {
                        proof {
                            lemma_first_index_from(relevant@, ',', 0);
                        }
                        let relevant_len: usize = relevant.unicode_len();
                        (
                            CompatibleEntry {
                                manufacturer: relevant.substring_char(0, comma),
                                model: relevant.substring_char(comma + 1, relevant_len),
                            },
                            remainder,
                        )
                    },
                    None => (
                        CompatibleEntry { manufacturer: "Malformed Input", model: "Malformed Input" },
                        remainder,
                    ),
                }
            },
            None => {
                proof {
                    reveal_strlit("");
                    assert(""@ =~= Seq::<char>::empty());
                }
                (CompatibleEntry { manufacturer: "", model: "" }, None)
            },
        }
    }

    /// Parses every entry of a `compatible` property, in order.
    pub fn parse_many(value: &'a str) -> (entries: Vec<Self>)
        ensures
            entries@.map_values(|e: Self| e.fields()) == parse_many_spec(value@),
            entries@.len() >= 1,
    {
        let mut rem: &'a str = value;
        let mut r: Vec<Self> = Vec::new();
        loop
            invariant_except_break
                r@.map_values(|e: Self| e.fields()) + parse_many_spec(rem@) == parse_many_spec(value@),
            ensures
                r@.map_values(|e: Self| e.fields()) == parse_many_spec(value@),
                r@.len() >= 1,
            decreases rem@.len(),
        {
            let ghost before = r@.map_values(|e: Self| e.fields());
            let (v, rest) = Self::parse(rem);
            r.push(v);
            assert(r@.map_values(|e: Self| e.fields()) =~= before.push(v.fields()));
            match rest {
                Some(rest) => {
                    assert(before.push(v.fields()) + parse_many_spec(rest@) =~= before + (seq![v.fields()]
                        + parse_many_spec(rest@)));
                    rem = rest;
                },
                None => {
                    assert(before.push(v.fields()) =~= before + seq![v.fields()]);
                    break ;
                },
            }
        }
        r
    }
}

/// The value of `bytes` read as a big-endian number: each byte in turn is
/// shifted in from the right, so that of more than 16 bytes the last 16
/// count.
pub open spec fn be_value(bytes: Seq<u8>) -> u128
    decreases bytes.len(),
{
    if bytes.len() == 0 {
        0
    } else {
        (be_value(bytes.drop_last()) << 8) | (bytes.last() as u128)
    }
}

/// The number that `bytes` spell in base 256, most significant byte first.
pub open spec fn be_number(bytes: Seq<u8>) -> nat
    decreases bytes.len(),
{
    if bytes.len() == 0 {
        0
    } else {
        be_number(bytes.drop_last()) * 256 + bytes.last() as nat
    }
}

/// Shifting a byte into a value below 2^120 multiplies by 256 and adds.
proof fn lemma_shift_in(v: u128, b: u8)
    by (bit_vector)
    requires
        v < 0x0100_0000_0000_0000_0000_0000_0000_0000,
    ensures
        (v << 8) | (b as u128) == v * 256 + b,
{
}

/// The number that `bytes` spell is below 256 to the power of their count.
proof fn lemma_be_number_bound(bytes: Seq<u8>)
    ensures
        be_number(bytes) < vstd::arithmetic::power::pow(256, bytes.len()),
    decreases bytes.len(),
{
    vstd::arithmetic::power::lemma_pow0(256);
    if bytes.len() > 0 {
        lemma_be_number_bound(bytes.drop_last());
        vstd::arithmetic::power::lemma_pow_adds(256, (bytes.len() - 1) as nat, 1);
        vstd::arithmetic::power::lemma_pow1(256);
        let p = vstd::arithmetic::power::pow(256, (bytes.len() - 1) as nat);
        assert(be_number(bytes.drop_last()) * 256 + 255 < p * 256) by (nonlinear_arith)
            requires
                be_number(bytes.drop_last()) < p,
        ;
    }
}

/// Up to 16 bytes are read as the number they spell: `be_value` is the
/// big-endian number of the bytes.
pub proof fn law_be_value_is_number(bytes: Seq<u8>)
    requires
        bytes.len() <= 16,
    ensures
        be_value(bytes) == be_number(bytes),
    decreases bytes.len(),
{
    if bytes.len() > 0 {
        let prefix = bytes.drop_last();
        law_be_value_is_number(prefix);
        lemma_be_number_bound(prefix);
        assert(vstd::arithmetic::power::pow(256, 15) == 0x0100_0000_0000_0000_0000_0000_0000_0000) by {
            vstd::arithmetic::power::lemma_pow1(256);
            vstd::arithmetic::power::lemma_pow_adds(256, 1, 1);
            vstd::arithmetic::power::lemma_pow_adds(256, 2, 2);
            vstd::arithmetic::power::lemma_pow_adds(256, 4, 4);
            vstd::arithmetic::power::lemma_pow_adds(256, 8, 4);
            vstd::arithmetic::power::lemma_pow_adds(256, 12, 2);
            vstd::arithmetic::power::lemma_pow_adds(256, 14, 1);
            assert(vstd::arithmetic::power::pow(256, 2) == 0x1_0000);
            assert(vstd::arithmetic::power::pow(256, 4) == 0x1_0000_0000) by (nonlinear_arith)
                requires
                    vstd::arithmetic::power::pow(256, 4) == vstd::arithmetic::power::pow(256, 2)
                        * vstd::arithmetic::power::pow(256, 2),
                    vstd::arithmetic::power::pow(256, 2) == 0x1_0000,
            ;
            assert(vstd::arithmetic::power::pow(256, 8) == 0x1_0000_0000_0000_0000) by (nonlinear_arith)
                requires
                    vstd::arithmetic::power::pow(256, 8) == vstd::arithmetic::power::pow(256, 4)
                        * vstd::arithmetic::power::pow(256, 4),
                    vstd::arithmetic::power::pow(256, 4) == 0x1_0000_0000,
            ;
            assert(vstd::arithmetic::power::pow(256, 12) == 0x1_0000_0000_0000_0000_0000_0000) by (nonlinear_arith)
                requires
                    vstd::arithmetic::power::pow(256, 12) == vstd::arithmetic::power::pow(256, 8)
                        * vstd::arithmetic::power::pow(256, 4),
                    vstd::arithmetic::power::pow(256, 8) == 0x1_0000_0000_0000_0000,
                    vstd::arithmetic::power::pow(256, 4) == 0x1_0000_0000,
            ;
            assert(vstd::arithmetic::power::pow(256, 14) == 0x1_0000_0000_0000_0000_0000_0000_0000) by (nonlinear_arith)
                requires
                    vstd::arithmetic::power::pow(256, 14) == vstd::arithmetic::power::pow(256, 12)
                        * vstd::arithmetic::power::pow(256, 2),
                    vstd::arithmetic::power::pow(256, 12) == 0x1_0000_0000_0000_0000_0000_0000,
                    vstd::arithmetic::power::pow(256, 2) == 0x1_0000,
            ;
        }
        if prefix.len() < 15 {
            vstd::arithmetic::power::lemma_pow_increases(256, prefix.len(), 15);
        }
        lemma_shift_in(be_value(prefix), bytes.last());
    }
}

/// The bytes `from .. to` of `data` read as a big-endian number.
fn numbify_range(data: &[u8], from: usize, to: usize) -> (v: u128)
    requires
        from <= to <= data@.len(),
    ensures
        v == be_value(data@.subrange(from as int, to as int)),
{
    let mut v: u128 = 0;
    let mut i: usize = from;
    assert(data@.subrange(from as int, from as int) =~= Seq::<u8>::empty());
    while i < to
        invariant
            from <= i <= to <= data@.len(),
            v == be_value(data@.subrange(from as int, i as int)),
        decreases to - i,
    {
        let el: u8 = data[i];
        proof {
            let prefix = data@.subrange(from as int, i as int);
            let next = data@.subrange(from as int, i as int + 1);
            assert(next.drop_last() =~= prefix);
            assert(next.last() == el);
        }
        v = (v << 8) | (el as u128);
        i += 1;
    }
    v
}

/// Reads a slice as a big-endian number; of a slice of more than 16 bytes
/// the last 16 count.
pub fn numbify(slice: &[u8]) -> (v: u128)
    ensures
        v == be_value(slice@),
{
    assert(slice@.subrange(0, slice@.len() as int) =~= slice@);
    numbify_range(slice, 0, slice.len())
}

/// How many 32-bit cells an address and a size take in a `reg` property.
#[derive(Debug, Clone, Copy, PartialEq, Eq, Structural)]
pub struct DTBAddressConfig {
    pub address_cells: u8,
    pub size_cells: u8,
}

impl DTBAddressConfig {
    /// Bytes of one (address, size) tuple.
    pub open spec fn tuple_bytes(self) -> int {
        (self.address_cells + self.size_cells) * 4
    }

    /// Tuple `i` of a `reg` property: its address and its size.
    pub open spec fn tuple_at(self, data: Seq<u8>, i: int) -> (u128, u128) {
        let at = i * self.tuple_bytes();
        let mid = at + self.address_cells * 4;
        (be_value(data.subrange(at, mid)), be_value(data.subrange(mid, at + self.tuple_bytes())))
    }

    /// Reads a `reg` property as (address, size) tuples of big-endian
    /// numbers. Bytes after the last whole tuple are ignored.
    pub fn interpret_reg(&self, data: &[u8]) -> (tuples: Vec<(u128, u128)>)
        requires
            self.address_cells + self.size_cells > 0,
        ensures
            tuples@.len() == data@.len() / (self.tuple_bytes() as nat),
            forall|i: int| 0 <= i < tuples@.len() ==> tuples@[i] == self.tuple_at(data@, i),
    {
        let address_bytes: usize = self.address_cells as usize * 4;
        let split_size: usize = (self.address_cells as usize + self.size_cells as usize) * 4;
        let count: usize = data.len() / split_size;
        let mut tuples: Vec<(u128, u128)> = Vec::new();
        let mut i: usize = 0;
        while i < count
            invariant
                i <= count,
                data@.len() <= usize::MAX,
                count == data@.len() / (split_size as nat),
                split_size == self.tuple_bytes(),
                split_size > 0,
                address_bytes == self.address_cells * 4,
                tuples@.len() == i,
                forall|k: int| 0 <= k < i ==> tuples@[k] == self.tuple_at(data@, k),
            decreases count - i,
        {
            assert((i + 1) * split_size <= data@.len()) by (nonlinear_arith)
                requires
                    i + 1 <= count,
                    count == data@.len() / (split_size as nat),
                    split_size > 0,
            ;
            assert(i * split_size + split_size == (i + 1) * split_size) by (nonlinear_arith);
            assert(0 <= i * split_size <= (i + 1) * split_size) by (nonlinear_arith)
                requires
                    split_size > 0,
            ;
            assert(address_bytes <= split_size);
            let at: usize = i * split_size;
            let addr = numbify_range(data, at, at + address_bytes);
            let size = numbify_range(data, at + address_bytes, at + split_size);
            tuples.push((addr, size));
            i += 1;
        }
        tuples
    }
}

} // verus!
