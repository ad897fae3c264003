//! Sequences as bit strings under a code table, and back again.

use vstd::prelude::*;
use bit_vec::BitVec;
use crate::bits::{bit_seq, bits_blocks, bits_extend, bits_len, bits_new, blocks};
use crate::text::{decimal, decimal_string};
use crate::types::errors::{Error, ErrorView};
use crate::types::huffman::{is_prefix, HuffmanTable};
use crate::types::key_press::{all_raw_bytes, blank_code, KeyPress, KeyPressView, Sequence};
use crate::text::views;
use crate::types::names::{code_views, CCode};

verus! {

/// The codes of `symbols`, one after the other.
pub open spec fn encode_symbols(table: HuffmanTable, symbols: Seq<Seq<char>>) -> Seq<bool>
    decreases symbols.len(),
{
    if symbols.len() == 0 {
        Seq::empty()
    } else {
        encode_symbols(table, symbols.drop_last()) + table.code(symbols.last())
    }
}

/// The symbols that stand for a press in the bit string: its modifiers in
/// their order, then its key, or the blank code where it has no key, so
/// that the end of the press can be seen.
pub open spec fn press_codes(press: KeyPressView) -> Seq<Seq<char>> {
    press.mods.push(press.key_or_blank())
}

/// The bits of one press.
pub open spec fn encode_press(table: HuffmanTable, press: KeyPressView) -> Seq<bool> {
    encode_symbols(table, press_codes(press))
}

/// The bits of a sequence: those of its presses, one after the other.
pub open spec fn encode(table: HuffmanTable, presses: Seq<KeyPressView>) -> Seq<bool>
    decreases presses.len(),
{
    if presses.len() == 0 {
        Seq::empty()
    } else {
        encode(table, presses.drop_last()) + encode_press(table, presses.last())
    }
}

/// Whether the table has a code for each symbol of the press.
pub open spec fn has_codes(table: HuffmanTable, press: KeyPressView) -> bool {
    forall|i: int| 0 <= i < press_codes(press).len() ==> table.has(#[trigger] press_codes(press)[i])
}

/// Whether `i` is the first symbol of the press for which the table has no
/// code.
pub open spec fn first_missing(table: HuffmanTable, press: KeyPressView, i: int) -> bool {
    &&& 0 <= i < press_codes(press).len()
    &&& !table.has(press_codes(press)[i])
    &&& forall|j: int| 0 <= j < i ==> table.has(#[trigger] press_codes(press)[j])
}

/// The symbol whose code is exactly `bits`, if there is one.
pub open spec fn matching(table: HuffmanTable, bits: Seq<bool>) -> Option<Seq<char>> {
    if exists|k: Seq<char>| table.has(k) && #[trigger] table.code(k) == bits {
        Some(choose|k: Seq<char>| table.has(k) && #[trigger] table.code(k) == bits)
    } else {
        None
    }
}

/// The symbol at the start of `bits` and the length of its code: the first
/// `len` bits are looked up, and as long as no symbol has them for its code
/// one more bit is taken.
pub open spec fn next_symbol(table: HuffmanTable, bits: Seq<bool>, len: nat) -> Option<(Seq<char>, nat)>
    decreases bits.len() - len,
{
    if len > bits.len() {
        None
    } else {
        match matching(table, bits.take(len as int)) {
            Some(k) => Some((k, len)),
            None => if len == bits.len() {
                None
            } else {
                next_symbol(table, bits, len + 1)
            },
        }
    }
}

/// The press that ends with the symbol `last`, after the modifiers
/// `pending`.
pub open spec fn closed_press(pending: Seq<Seq<char>>, last: Seq<char>) -> KeyPressView {
    KeyPressView { key: if last == blank_code() { None } else { Some(last) }, mods: pending }
}

/// The presses that `bits` stand for, after the modifiers `pending` of a
/// press that has begun. Each symbol is looked up starting from the length
/// of the shortest code. A modifier is kept for the press that is being
/// read; any other symbol ends the press.
pub open spec fn decode_from(table: HuffmanTable, bits: Seq<bool>, pending: Seq<Seq<char>>) -> Option<
    Seq<KeyPressView>,
>
    decreases bits.len(),
{
    if bits.len() == 0 {
        if pending.len() == 0 {
            Some(Seq::empty())
        } else {
            None
        }
    } else {
        match next_symbol(table, bits, table.spec_min_bit_length()) {
            None => None,
            Some((k, n)) => if n == 0 || n > bits.len() {
                None
            } else if table.marks_mod(k) {
                decode_from(table, bits.skip(n as int), pending.push(k))
            } else {
                match decode_from(table, bits.skip(n as int), Seq::empty()) {
                    None => None,
                    Some(rest) => Some(seq![closed_press(pending, k)] + rest),
                }
            },
        }
    }
}

/// The presses that `bits` stand for, if they stand for any.
pub open spec fn decode(table: HuffmanTable, bits: Seq<bool>) -> Option<Seq<KeyPressView>> {
    decode_from(table, bits, Seq::empty())
}

/// Whether the press can be read back from its bits: the table has a code
/// for each of its symbols, marks its modifiers as modifiers and its key as
/// a key, and the key is not written as the blank code.
pub open spec fn readable(table: HuffmanTable, press: KeyPressView) -> bool {
    &&& table.has(press.key_or_blank())
    &&& !table.marks_mod(press.key_or_blank())
    &&& press.key != Some(blank_code())
    &&& forall|i: int|
        0 <= i < press.mods.len() ==> table.has(#[trigger] press.mods[i]) && table.marks_mod(
            press.mods[i],
        )
}

/// The bits of symbols are the code of the first and then the bits of the
/// others.
proof fn lemma_encode_symbols_front(table: HuffmanTable, symbols: Seq<Seq<char>>)
    requires
        symbols.len() > 0,
    ensures
        encode_symbols(table, symbols) == table.code(symbols[0]) + encode_symbols(
            table,
            symbols.drop_first(),
        ),
    decreases symbols.len(),
{
    if symbols.len() == 1 {
        assert(encode_symbols(table, symbols.drop_last()) =~= Seq::empty());
        assert(encode_symbols(table, symbols.drop_first()) =~= Seq::empty());
        assert(symbols.last() == symbols[0]);
        assert(encode_symbols(table, symbols) =~= table.code(symbols[0]) + Seq::empty());
    } else {
        lemma_encode_symbols_front(table, symbols.drop_last());
        assert(symbols.drop_last().drop_first() == symbols.drop_first().drop_last());
        assert(symbols.drop_first().last() == symbols.last());
        assert(encode_symbols(table, symbols) =~= table.code(symbols[0]) + encode_symbols(
            table,
            symbols.drop_first(),
        ));
    }
}

/// The bits of presses are the bits of the first and then those of the
/// others.
proof fn lemma_encode_front(table: HuffmanTable, presses: Seq<KeyPressView>)
    requires
        presses.len() > 0,
    ensures
        encode(table, presses) == encode_press(table, presses[0]) + encode(table, presses.drop_first()),
    decreases presses.len(),
{
    if presses.len() == 1 {
        assert(encode(table, presses.drop_last()) =~= Seq::empty());
        assert(encode(table, presses.drop_first()) =~= Seq::empty());
        assert(presses.last() == presses[0]);
        assert(encode(table, presses) =~= encode_press(table, presses[0]) + Seq::empty());
    } else {
        lemma_encode_front(table, presses.drop_last());
        assert(presses.drop_last().drop_first() == presses.drop_first().drop_last());
        assert(presses.drop_first().last() == presses.last());
        assert(encode(table, presses) =~= encode_press(table, presses[0]) + encode(
            table,
            presses.drop_first(),
        ));
    }
}

/// The bits of the first symbols are no more than the bits of all.
proof fn lemma_encode_symbols_prefix(table: HuffmanTable, symbols: Seq<Seq<char>>, n: int)
    requires
        0 <= n <= symbols.len(),
    ensures
        encode_symbols(table, symbols.take(n)).len() <= encode_symbols(table, symbols).len(),
    decreases symbols.len() - n,
{
    if n < symbols.len() {
        lemma_encode_symbols_prefix(table, symbols, n + 1);
        assert(symbols.take(n + 1).drop_last() == symbols.take(n));
    } else {
        assert(symbols.take(n) == symbols);
    }
}

/// The bits of the first presses are no more than the bits of all.
proof fn lemma_encode_prefix(table: HuffmanTable, presses: Seq<KeyPressView>, n: int)
    requires
        0 <= n <= presses.len(),
    ensures
        encode(table, presses.take(n)).len() <= encode(table, presses).len(),
    decreases presses.len() - n,
{
    if n < presses.len() {
        lemma_encode_prefix(table, presses, n + 1);
        assert(presses.take(n + 1).drop_last() == presses.take(n));
    } else {
        assert(presses.take(n) == presses);
    }
}

/// In a table that is free of prefixes, the symbol at the start of the bits
/// `code(k) + rest` is `k`, found at the length of its code.
proof fn lemma_next_symbol(table: HuffmanTable, k: Seq<char>, rest: Seq<bool>, len: nat)
    requires
        table.prefix_free(),
        table.has(k),
        len <= table.code(k).len(),
    ensures
        next_symbol(table, table.code(k) + rest, len) == Some((k, table.code(k).len())),
    decreases table.code(k).len() - len,
{
    let bits = table.code(k) + rest;
    let n = table.code(k).len();
    let start = bits.take(len as int);
    assert(bits.take(n as int) =~= table.code(k));
    if len < n {
        if exists|j: Seq<char>| table.has(j) && #[trigger] table.code(j) == start {
            let j = choose|j: Seq<char>| table.has(j) && #[trigger] table.code(j) == start;
            assert(table.code(k).take(len as int) =~= start);
            assert(is_prefix(table.code(j), table.code(k)));
        }
        lemma_next_symbol(table, k, rest, len + 1);
    } else {
        assert(table.has(k) && table.code(k) == start);
        let j = choose|j: Seq<char>| table.has(j) && #[trigger] table.code(j) == start;
        if j != k {
            assert(table.code(k).take(n as int) =~= table.code(k));
            assert(is_prefix(table.code(j), table.code(k)));
        }
    }
}

/// Reading the bits of the symbols `mods`, all modifiers, then of the
/// symbol `last`, not a modifier, then `rest`, gives one press and then what
/// `rest` gives.
proof fn lemma_decode_press(
    table: HuffmanTable,
    pending: Seq<Seq<char>>,
    mods: Seq<Seq<char>>,
    last: Seq<char>,
    rest: Seq<bool>,
)
    requires
        table.wf(),
        table.prefix_free(),
        table.spec_min_bit_length() >= 1,
        table.has(last),
        !table.marks_mod(last),
        forall|i: int| 0 <= i < mods.len() ==> table.has(#[trigger] mods[i]) && table.marks_mod(mods[i]),
    ensures
        decode_from(table, encode_symbols(table, mods.push(last)) + rest, pending) == match decode_from(
            table,
            rest,
            Seq::empty(),
        ) {
            None => None::<Seq<KeyPressView>>,
            Some(tail) => Some(seq![closed_press(pending + mods, last)] + tail),
        },
    decreases mods.len(),
{
    let min = table.spec_min_bit_length();
    assert(table.0.key_seq().len() > 0) by {
        if table.0.key_seq().len() == 0 {
            assert(table.code_lens().len() == 0);
        }
    }
    table.lemma_min_bit_length();
    let all = mods.push(last);
    let bits = encode_symbols(table, all) + rest;
    lemma_encode_symbols_front(table, all);
    let first = all[0];
    let after = encode_symbols(table, all.drop_first()) + rest;
    assert(bits =~= table.code(first) + after);
    assert(table.has(first));
    let n = table.code(first).len();
    lemma_next_symbol(table, first, after, min);
    assert(bits.skip(n as int) =~= after);
    if mods.len() == 0 {
        assert(all.drop_first() =~= Seq::empty());
        assert(after =~= rest);
        assert(pending + mods =~= pending);
    } else {
        assert(first == mods[0]);
        assert(all.drop_first() =~= mods.drop_first().push(last));
        lemma_decode_press(table, pending.push(first), mods.drop_first(), last, rest);
        assert(pending.push(first) + mods.drop_first() =~= pending + mods);
    }
}

/// Reading back what was written gives what was written: the bits of a
/// sequence of readable presses stand for those presses, under a table that
/// is free of prefixes and has no empty code.
pub proof fn lemma_round_trip(table: HuffmanTable, presses: Seq<KeyPressView>)
    requires
        table.wf(),
        table.prefix_free(),
        table.spec_min_bit_length() >= 1,
        forall|i: int| 0 <= i < presses.len() ==> readable(table, #[trigger] presses[i]),
    ensures
        decode(table, encode(table, presses)) == Some(presses),
    decreases presses.len(),
{
    if presses.len() == 0 {
        assert(presses =~= Seq::empty());
    } else {
        let first = presses[0];
        let others = presses.drop_first();
        assert(readable(table, first));
        assert forall|i: int| 0 <= i < others.len() implies readable(table, #[trigger] others[i]) by {
            assert(others[i] == presses[i + 1]);
        }
        lemma_round_trip(table, others);
        lemma_encode_front(table, presses);
        lemma_decode_press(
            table,
            Seq::empty(),
            first.mods,
            first.key_or_blank(),
            encode(table, others),
        );
        assert(Seq::<Seq<char>>::empty() + first.mods =~= first.mods);
        assert(closed_press(first.mods, first.key_or_blank()) == first);
        assert(seq![first] + others =~= presses);
    }
}


/// Why a press cannot be written, if it cannot: it is empty, or the table
/// lacks the code of one of its symbols, of which the first is named.
pub open spec fn press_error(table: HuffmanTable, press: KeyPressView) -> Option<ErrorView> {
    if press.is_empty() {
        Some(ErrorView::BadValue { thing: "key press"@, value: "empty"@ })
    } else if has_codes(table, press) {
        None
    } else {
        Some(
            ErrorView::Lookup {
                key: press_codes(press)[choose|i: int| first_missing(table, press, i)],
                container: "huffman code table"@,
            },
        )
    }
}

/// Why a sequence cannot be written, if it cannot: the error of the first
/// of its presses that cannot.
pub open spec fn first_error(table: HuffmanTable, presses: Seq<KeyPressView>) -> Option<ErrorView>
    decreases presses.len(),
{
    if presses.len() == 0 {
        None
    } else {
        match first_error(table, presses.drop_last()) {
            Some(e) => Some(e),
            None => press_error(table, presses.last()),
        }
    }
}

/// A press that cannot be written, once found, stays the first one.
proof fn lemma_first_error_stays(table: HuffmanTable, presses: Seq<KeyPressView>, n: int)
    requires
        0 <= n <= presses.len(),
        first_error(table, presses.take(n)) is Some,
    ensures
        first_error(table, presses) == first_error(table, presses.take(n)),
    decreases presses.len() - n,
{
    if n < presses.len() {
        assert(presses.take(n + 1).drop_last() == presses.take(n));
        lemma_first_error_stays(table, presses, n + 1);
    } else {
        assert(presses.take(n) == presses);
    }
}

/// The bits of one press, or why it has none.
pub fn press_bits(press: &KeyPress, table: &HuffmanTable) -> (r: Result<Vec<bool>, Error>)
    requires
        table.wf(),
    ensures
        match press_error(*table, press@) {
            Some(e) => r is Err && r->Err_0@ == e,
            None => r is Ok && r->Ok_0@ == encode_press(*table, press@),
        },
{
    match press.ensure_non_empty() {
        Err(e) => {
            return Err(e);
        },
        Ok(_) => {},
    }
    let ghost codes = press_codes(press@);
    let mut bits: Vec<bool> = Vec::new();
    let mut i: usize = 0;
    while i < press.mods.len()
        invariant
            i <= press.mods.len(),
            table.wf(),
            codes == press_codes(press@),
            !press@.is_empty(),
            forall|j: int| 0 <= j < i ==> table.has(#[trigger] codes[j]),
            bits@ == encode_symbols(*table, codes.take(i as int)),
        decreases press.mods.len() - i,
    {
        assert(codes[i as int] == press.mods[i as int]@);
        match table.bits(&press.mods[i]) {
            Ok(code) => {
                let mut code = code;
                bits.append(&mut code);
                assert(codes.take(i + 1).drop_last() == codes.take(i as int));
            },
            Err(e) => {
                proof {
                    lemma_missing(*table, press@, i as int);
                }
                return Err(e);
            },
        }
        i += 1;
    }
    let key = press.key_or_blank();
    assert(codes[i as int] == key@);
    match table.bits(&key) {
        Ok(code) => {
            let mut code = code;
            bits.append(&mut code);
            proof {
                assert(codes.take(i + 1).drop_last() == codes.take(i as int));
                assert(codes.take(i + 1) == codes);
                assert(has_codes(*table, press@));
            }
            Ok(bits)
        },
        Err(e) => {
            proof {
                lemma_missing(*table, press@, i as int);
            }
            Err(e)
        },
    }
}

/// The first missing symbol is the one that `press_error` names.
proof fn lemma_missing(table: HuffmanTable, press: KeyPressView, i: int)
    requires
        !press.is_empty(),
        first_missing(table, press, i),
    ensures
        press_error(table, press) == Some(
            ErrorView::Lookup { key: press_codes(press)[i], container: "huffman code table"@ },
        ),
{
    let w = choose|w: int| first_missing(table, press, w);
    assert(first_missing(table, press, w));
    if w < i {
        assert(table.has(press_codes(press)[w]));
    }
    if w > i {
        assert(table.has(press_codes(press)[i]));
    }
}

impl KeyPress {
    /// The bits of the press under `table`: the codes of its modifiers, in
    /// their order, and then the code of its key, or of the blank code.
    pub fn huffman(&self, table: &HuffmanTable) -> (r: Result<BitVec<u8>, Error>)
        requires
            table.wf(),
        ensures
            match press_error(*table, self@) {
                Some(e) => r is Err && r->Err_0@ == e,
                None => r is Ok && bit_seq(r->Ok_0) == encode_press(*table, self@),
            },
    {
        match press_bits(self, table) {
            Ok(code) => {
                let mut bits = bits_new();
                bits_extend(&mut bits, &code);
                assert(Seq::<bool>::empty() + code@ =~= code@);
                Ok(bits)
            },
            Err(e) => Err(e),
        }
    }
}

/// The error of a sequence whose bits are too many to be counted.
pub open spec fn too_long_error() -> ErrorView {
    ErrorView::OutOfRange {
        name: "sequence length in bits"@,
        value: usize::MAX as nat,
        min: 0,
        max: usize::MAX as nat,
    }
}

/// Why a sequence has no bits, if it has none: the error of the first of
/// its presses that cannot be written, or else that its bits are too many
/// to be counted.
pub open spec fn encode_error(table: HuffmanTable, presses: Seq<KeyPressView>) -> Option<ErrorView> {
    match first_error(table, presses) {
        Some(e) => Some(e),
        None => if encode(table, presses).len() > usize::MAX {
            Some(too_long_error())
        } else {
            None
        },
    }
}

impl Sequence {
    /// The bits of the sequence under `table`: those of its presses, one
    /// after the other.
    pub fn as_bits(&self, table: &HuffmanTable) -> (r: Result<BitVec<u8>, Error>)
        requires
            table.wf(),
        ensures
            match encode_error(*table, self@) {
                Some(e) => r is Err && r->Err_0@ == e,
                None => r is Ok && bit_seq(r->Ok_0) == encode(*table, self@),
            },
    {
        let ghost presses = self@;
        let mut parts: Vec<Vec<bool>> = Vec::new();
        let mut i: usize = 0;
        while i < self.0.len()
            invariant
                i <= self.0.len(),
                table.wf(),
                presses == self@,
                parts.len() == i,
                first_error(*table, presses.take(i as int)) is None,
                forall|j: int| 0 <= j < i ==> (#[trigger] parts[j])@ == encode_press(*table, presses[j]),
            decreases self.0.len() - i,
        {
            assert(presses.take(i + 1).drop_last() == presses.take(i as int));
            assert(presses.take(i + 1).last() == self.0[i as int]@);
            match press_bits(&self.0[i], table) {
                Ok(code) => {
                    parts.push(code);
                },
                Err(e) => {
                    proof {
                        lemma_first_error_stays(*table, presses, i + 1);
                    }
                    return Err(e);
                },
            }
            i += 1;
        }
        assert(presses.take(i as int) == presses);
        let mut bits = bits_new();
        let mut i: usize = 0;
        assert(presses.take(0) =~= Seq::empty());
        while i < parts.len()
            invariant
                i <= parts.len(),
                presses == self@,
                parts.len() == presses.len(),
                first_error(*table, presses) is None,
                forall|j: int|
                    0 <= j < parts.len() ==> (#[trigger] parts[j])@ == encode_press(*table, presses[j]),
                bit_seq(bits) == encode(*table, presses.take(i as int)),
                encode(*table, presses.take(i as int)).len() <= usize::MAX,
            decreases parts.len() - i,
        {
            proof {
                lemma_encode_prefix(*table, presses, i + 1);
                assert(presses.take(i + 1).drop_last() == presses.take(i as int));
            }
            if parts[i].len() > usize::MAX - bits_len(&bits) {
                return Err(
                    Error::OutOfRange {
                        name: "sequence length in bits".to_owned(),
                        value: usize::MAX,
                        min: 0,
                        max: usize::MAX,
                    },
                );
            }
            bits_extend(&mut bits, &parts[i]);
            i += 1;
        }
        assert(presses.take(i as int) == presses);
        Ok(bits)
    }

    /// The bits of the sequence packed into bytes, each byte written as a
    /// number: bit `i` of the sequence is bit `i % 8` of byte `i / 8`,
    /// counted from the lowest, and the last byte is filled up with unset
    /// bits.
    pub fn as_bytes(&self, table: &HuffmanTable) -> (r: Result<Vec<CCode>, Error>)
        requires
            table.wf(),
        ensures
            match encode_error(*table, self@) {
                Some(e) => r is Err && r->Err_0@ == e,
                None => r is Ok && code_views(r->Ok_0@) == packed(encode(*table, self@)),
            },
    {
        match self.as_bits(table) {
            Ok(bits) => {
                let bytes = bits_blocks(&bits);
                let ghost want = blocks(encode(*table, self@));
                assert(bytes@.map_values(|b: u8| b as nat).len() == bytes.len());
                let mut out: Vec<CCode> = Vec::new();
                let mut k: usize = 0;
                while k < bytes.len()
                    invariant
                        k <= bytes.len(),
                        bytes@.map_values(|b: u8| b as nat) == want,
                        out.len() == k,
                        forall|j: int| 0 <= j < k ==> (#[trigger] out@[j])@ == decimal(want[j]),
                    decreases bytes.len() - k,
                {
                    assert(bytes@.map_values(|b: u8| b as nat)[k as int] == bytes[k as int] as nat);
                    out.push(CCode(decimal_string(bytes[k] as usize)));
                    k += 1;
                }
                assert(code_views(out@) =~= packed(encode(*table, self@)));
                Ok(out)
            },
            Err(e) => Err(e),
        }
    }

    /// The number of bits of the sequence under `table`.
    pub fn formatted_length_in_bits(&self, table: &HuffmanTable) -> (r: Result<usize, Error>)
        requires
            table.wf(),
        ensures
            match encode_error(*table, self@) {
                Some(e) => r is Err && r->Err_0@ == e,
                None => r is Ok && r->Ok_0 == encode(*table, self@).len(),
            },
    {
        match self.as_bits(table) {
            Ok(bits) => Ok(bits_len(&bits)),
            Err(e) => Err(e),
        }
    }
}

/// `bits` packed into bytes, each byte as a number of the generated code.
pub open spec fn packed(bits: Seq<bool>) -> Seq<Seq<char>> {
    blocks(bits).map_values(|b: nat| decimal(b))
}


/// The presses `done`, and after them what `rest` gives, if it gives
/// anything.
pub open spec fn after(done: Seq<KeyPressView>, rest: Option<Seq<KeyPressView>>) -> Option<
    Seq<KeyPressView>,
> {
    match rest {
        Some(more) => Some(done + more),
        None => None,
    }
}

impl HuffmanTable {
    /// The position of the symbol whose code is the `len` bits of `bits`
    /// from `at` on, if there is one.
    fn match_code(&self, bits: &Vec<bool>, at: usize, len: usize) -> (found: Option<usize>)
        requires
            self.wf(),
            self.prefix_free(),
            at + len <= bits.len(),
        ensures
            match matching(*self, bits@.skip(at as int).take(len as int)) {
                Some(k) => found is Some && found->0 < self.0.key_seq().len() && self.0.key_seq()[found->0 as int]
                    == k && self.has(k),
                None => found is None,
            },
    {
        let ghost want = bits@.skip(at as int).take(len as int);
        let mut i: usize = 0;
        while i < self.0.len()
            invariant
                i <= self.0.key_seq().len(),
                self.wf(),
                self.prefix_free(),
                at + len <= bits.len(),
                want == bits@.skip(at as int).take(len as int),
                forall|j: int| 0 <= j < i ==> (#[trigger] self.0.val_seq()[j]).bits@ != want,
            decreases self.0.key_seq().len() - i,
        {
            let code = &self.0.val_at(i).bits;
            if code.len() == len {
                let mut j: usize = 0;
                while j < len && code[j] == bits[at + j]
                    invariant
                        j <= len,
                        code.len() == len,
                        at + len <= bits.len(),
                        want == bits@.skip(at as int).take(len as int),
                        forall|t: int| 0 <= t < j ==> code[t] == want[t],
                    decreases len - j,
                {
                    j += 1;
                }
                if j == len {
                    proof {
                        assert(code@ =~= want);
                        let key = self.0.key_seq()[i as int];
                        self.0.lemma_pos(i as int);
                        assert(self.has(key) && self.code(key) == want);
                        let k = choose|k: Seq<char>| self.has(k) && #[trigger] self.code(k) == want;
                        if k != key {
                            assert(self.code(k).take(want.len() as int) =~= self.code(k));
                            assert(is_prefix(self.code(k), self.code(key)));
                        }
                    }
                    return Some(i);
                } else {
                    assert(code@[j as int] != want[j as int]);
                }
            }
            i += 1;
        }
        proof {
            if exists|k: Seq<char>| self.has(k) && #[trigger] self.code(k) == want {
                let k = choose|k: Seq<char>| self.has(k) && #[trigger] self.code(k) == want;
                let p = self.0.pos(k);
                assert(self.0.key_seq()[p] == k);
                assert(self.0.val_seq()[p].bits@ == want);
            }
        }
        None
    }

    /// The presses that `bits` stand for under the table, read as the
    /// firmware reads them: each symbol is looked up starting from the
    /// length of the shortest code, one more bit at a time; modifiers are
    /// kept until a symbol that is none ends the press. `None` where the
    /// bits stand for no sequence.
    pub fn decode(&self, bits: &Vec<bool>) -> (r: Option<Sequence>)
        requires
            self.wf(),
            self.prefix_free(),
        ensures
            match decode(*self, bits@) {
                Some(presses) => r is Some && r->0@ == presses,
                None => r is None,
            },
    {
        let min = self.min_bit_length();
        let mut done = Sequence::new();
        let mut pending: Vec<CCode> = Vec::new();
        let mut at: usize = 0;
        proof {
            assert(bits@.skip(0) == bits@);
            assert(code_views(pending@) =~= Seq::<Seq<char>>::empty());
            assert(Seq::<KeyPressView>::empty() + decode(*self, bits@)->0 =~= decode(*self, bits@)->0);
        }
        while at < bits.len()
            invariant
                at <= bits.len(),
                self.wf(),
                self.prefix_free(),
                min == self.spec_min_bit_length(),
                decode(*self, bits@) == after(
                    done@,
                    decode_from(*self, bits@.skip(at as int), code_views(pending@)),
                ),
            decreases bits.len() - at,
        {
            let ghost rest = bits@.skip(at as int);
            let mut len = min;
            let mut found: Option<usize> = None;
            while len <= bits.len() - at
                invariant_except_break
                    found is None,
                    next_symbol(*self, rest, min as nat) == next_symbol(*self, rest, len as nat),
                invariant
                    at < bits.len(),
                    self.wf(),
                    self.prefix_free(),
                    rest == bits@.skip(at as int),
                ensures
                    match next_symbol(*self, rest, min as nat) {
                        Some((k, n)) => found is Some && found->0 < self.0.key_seq().len() && self.0.key_seq()[found->0 as int]
                            == k && n == len && len <= bits.len() - at && self.has(k),
                        None => found is None,
                    },
                decreases bits.len() - at - len,
            {
                match self.match_code(bits, at, len) {
                    Some(i) => {
                        found = Some(i);
                        break;
                    },
                    None => {},
                }
                if len == bits.len() - at {
                    break;
                }
                len += 1;
            }
            let i = match found {
                Some(i) => i,
                None => {
                    return None;
                },
            };
            if len == 0 {
                return None;
            }
            let key = self.0.key_at(i);
            let entry = self.0.val_at(i);
            proof {
                self.0.lemma_pos(i as int);
                assert(rest.skip(len as int) == bits@.skip(at + len));
            }
            if entry.is_mod {
                let ghost before = pending@;
                pending.push(CCode(key.clone()));
                assert(code_views(pending@) =~= code_views(before).push(key@));
            } else {
                let blank = crate::text::str_eq(key.as_str(), "0");
                let press = KeyPress {
                    key: if blank {
                        None
                    } else {
                        Some(CCode(key.clone()))
                    },
                    mods: pending,
                };
                proof {
                    assert(press@ == closed_press(code_views(pending@), key@));
                }
                let ghost so_far = done@;
                done.push(press);
                pending = Vec::new();
                proof {
                    assert(code_views(pending@) =~= Seq::<Seq<char>>::empty());
                    let tail = decode_from(*self, bits@.skip(at + len), Seq::empty());
                    if tail is Some {
                        assert(so_far + (seq![press@] + tail->0) =~= done@ + tail->0);
                    }
                }
            }
            at += len;
        }
        if pending.len() == 0 {
            proof {
                assert(code_views(pending@).len() == 0);
                assert(done@ + Seq::<KeyPressView>::empty() =~= done@);
            }
            Some(done)
        } else {
            assert(code_views(pending@).len() == pending.len());
            None
        }
    }
}


impl Sequence {
    /// The sequence as bytes of the generated code: packed under `table`
    /// where there is one, else raw, with the modifiers if `use_mods`.
    pub fn to_bytes(&self, table: Option<&HuffmanTable>, use_mods: bool) -> (r: Result<Vec<String>, Error>)
        requires
            table is Some ==> table->0.wf(),
        ensures
            table is None ==> r is Ok && views(r->Ok_0@) == all_raw_bytes(self@, use_mods),
            table is Some ==> match encode_error(*table->0, self@) {
                Some(e) => r is Err && r->Err_0@ == e,
                None => r is Ok && views(r->Ok_0@) == packed(encode(*table->0, self@)),
            },
    {
        match table {
            None => Ok(self.to_raw_bytes(use_mods)),
            Some(table) => match self.as_bytes(table) {
                Ok(codes) => {
                    let mut out: Vec<String> = Vec::new();
                    let mut i: usize = 0;
                    while i < codes.len()
                        invariant
                            i <= codes.len(),
                            out.len() == i,
                            forall|j: int| 0 <= j < i ==> out[j]@ == codes[j]@,
                        decreases codes.len() - i,
                    {
                        out.push(codes[i].0.clone());
                        i += 1;
                    }
                    assert(views(out@) =~= code_views(codes@));
                    Ok(out)
                },
                Err(e) => Err(e),
            },
        }
    }
}

} // verus!
