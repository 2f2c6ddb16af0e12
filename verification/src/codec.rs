use vstd::prelude::*;

verus! {

/// The longest run that one `(count, value)` pair can hold.
pub const MAX_RUN: usize = 255;

/// How many of the bytes after `data[from]` repeat it without a break, counted up to `cap`.
pub open spec fn repeats_after(data: Seq<u8>, from: int, cap: nat) -> nat
    decreases cap,
{
    if cap == 0 || from + 1 >= data.len() || data[from + 1] != data[from] {
        0
    } else {
        1 + repeats_after(data, from + 1, (cap - 1) as nat)
    }
}

/// The length of the run that starts at `data[from]`, cut off at `MAX_RUN`.
pub open spec fn run_at(data: Seq<u8>, from: int) -> nat {
    1 + repeats_after(data, from, (MAX_RUN - 1) as nat)
}

/// The run-length code of `data[from..]`: one `(count, value)` pair for each run, a run
/// longer than `MAX_RUN` split into several pairs of which all but the last are full.
pub open spec fn rle_encode_from(data: Seq<u8>, from: int) -> Seq<u8>
    decreases data.len() - from,
    via rle_encode_from_decreases
{
    if from < 0 || from >= data.len() {
        Seq::empty()
    } else {
        let run = run_at(data, from);
        seq![#[verifier::truncate] (run as u8), data[from]] + rle_encode_from(data, from + run)
    }
}

#[via_fn]
proof fn rle_encode_from_decreases(data: Seq<u8>, from: int) {
    if 0 <= from < data.len() {
        lemma_repeats_after(data, from, (MAX_RUN - 1) as nat);
    }
}

/// The run-length code of `data`.
pub open spec fn rle_encode_spec(data: Seq<u8>) -> Seq<u8> {
    rle_encode_from(data, 0)
}

/// The bytes that a sequence of `(count, value)` pairs stands for: each value repeated
/// `count` times. A trailing odd byte stands for nothing.
pub open spec fn rle_decode_spec(code: Seq<u8>) -> Seq<u8>
    decreases code.len(),
{
    if code.len() < 2 {
        Seq::empty()
    } else {
        Seq::new(code[0] as nat, |j: int| code[1]) + rle_decode_spec(code.skip(2))
    }
}

/// `count` bytes from `data[from]` on are equal, where `count` is one and the repeats
/// counted after it; the count stops only at the cap, at the end, or at another byte.
pub proof fn lemma_repeats_after(data: Seq<u8>, from: int, cap: nat)
    requires
        0 <= from < data.len(),
    ensures
        repeats_after(data, from, cap) <= cap,
        from + repeats_after(data, from, cap) < data.len(),
        forall|j: int|
            0 <= j <= repeats_after(data, from, cap) ==> #[trigger] data[from + j] == data[from],
        repeats_after(data, from, cap) == cap || from + repeats_after(data, from, cap) + 1
            == data.len() || data[from + repeats_after(data, from, cap) + 1] != data[from],
    decreases cap,
{
    if cap == 0 || from + 1 >= data.len() || data[from + 1] != data[from] {
    } else {
        lemma_repeats_after(data, from + 1, (cap - 1) as nat);
        let rest = repeats_after(data, from + 1, (cap - 1) as nat);
        assert forall|j: int| 0 <= j <= rest + 1 implies #[trigger] data[from + j] == data[from] by {
            if j > 0 {
                assert(data[(from + 1) + (j - 1)] == data[from + 1]);
            }
        }
    }
}

/// A count of equal bytes that stops only at the cap, at the end, or at another byte
/// is the count of repeats.
pub proof fn lemma_repeats_after_is(data: Seq<u8>, from: int, cap: nat, count: nat)
    requires
        0 <= from < data.len(),
        count <= cap,
        from + count < data.len(),
        forall|j: int| 0 <= j <= count ==> #[trigger] data[from + j] == data[from],
        count == cap || from + count + 1 == data.len() || data[from + count + 1] != data[from],
    ensures
        repeats_after(data, from, cap) == count,
    decreases cap,
{
    if cap == 0 || from + 1 >= data.len() {
    } else if data[from + 1] != data[from] {
        if count > 0 {
            assert(data[from + 1] == data[from]);
        }
    } else {
        if count == 0 {
            assert(data[from + 0 + 1] == data[from]);
        } else {
            assert forall|j: int| 0 <= j <= count - 1 implies #[trigger] data[(from + 1) + j]
                == data[from + 1] by {
                assert(data[from + (j + 1)] == data[from]);
            }
            assert(data[from + count] == data[from]);
            lemma_repeats_after_is(data, from + 1, (cap - 1) as nat, (count - 1) as nat);
        }
    }
}

/// Decoding the code of `data[from..]` gives `data[from..]` back.
pub proof fn lemma_rle_round_trip_from(data: Seq<u8>, from: int)
    requires
        0 <= from <= data.len(),
    ensures
        rle_decode_spec(rle_encode_from(data, from)) == data.skip(from),
    decreases data.len() - from,
{
    if from >= data.len() {
        assert(data.skip(from) =~= Seq::<u8>::empty());
    } else {
        let n = run_at(data, from);
        lemma_repeats_after(data, from, (MAX_RUN - 1) as nat);
        let pair = seq![n as u8, data[from]];
        let rest = rle_encode_from(data, from + n);
        let code = pair + rest;
        assert(code.skip(2) =~= rest);
        lemma_rle_round_trip_from(data, from + n);
        let run = Seq::new(code[0] as nat, |j: int| code[1]);
        assert(run + data.skip(from + n) =~= data.skip(from)) by {
            assert forall|j: int| 0 <= j < n implies run[j] == data.skip(from)[j] by {
                assert(data[from + j] == data[from]);
            }
        }
    }
}

/// Run-length encoding followed by decoding reproduces the bytes exactly, whatever the
/// length of the runs.
pub proof fn lemma_rle_round_trip(data: Seq<u8>)
    ensures
        rle_decode_spec(rle_encode_spec(data)) == data,
{
    lemma_rle_round_trip_from(data, 0);
    assert(data.skip(0) =~= data);
}

/// Compacts `data` into `(count, value)` pairs, one per run, with `count` at most `MAX_RUN`.
pub fn rle_encode(data: &[u8]) -> (code: Vec<u8>)
    ensures
        code@ == rle_encode_spec(data@),
        rle_decode_spec(code@) == data@,
{
    let mut code: Vec<u8> = Vec::new();
    let mut i: usize = 0;
    while i < data.len()
        invariant
            i <= data.len(),
            code@ + rle_encode_from(data@, i as int) == rle_encode_from(data@, 0),
        decreases data.len() - i,
    {
        let value = data[i];
        let mut run: usize = 1;
        while run < MAX_RUN && run < data.len() - i && data[i + run] == value
            invariant
                i < data.len(),
                1 <= run <= MAX_RUN,
                run <= data.len() - i,
                value == data@[i as int],
                forall|j: int| 0 <= j < run ==> #[trigger] data@[i + j] == value,
            decreases MAX_RUN - run,
        {
            run = run + 1;
        }
        proof {
            lemma_repeats_after_is(data@, i as int, (MAX_RUN - 1) as nat, (run - 1) as nat);
            assert(code@.push(run as u8).push(value) + rle_encode_from(data@, i + run) =~= code@
                + rle_encode_from(data@, i as int));
        }
        code.push(run as u8);
        code.push(value);
        i = i + run;
    }
    proof {
        assert(code@ + Seq::<u8>::empty() =~= code@);
        lemma_rle_round_trip(data@);
    }
    code
}

/// Expands `(count, value)` pairs into the bytes they stand for. A code of odd length
/// is no sequence of pairs and is refused.
pub fn rle_decode(code: &[u8]) -> (data: Option<Vec<u8>>)
    ensures
        data.is_some() <==> code@.len() % 2 == 0,
        data.is_some() ==> data.unwrap()@ == rle_decode_spec(code@),
{
    if code.len() % 2 != 0 {
        return None;
    }
    let mut data: Vec<u8> = Vec::new();
    let mut i: usize = 0;
    proof {
        assert(code@.skip(0) =~= code@);
        assert(data@ + rle_decode_spec(code@) =~= rle_decode_spec(code@));
    }
    while i < code.len()
        invariant
            i <= code.len(),
            i % 2 == 0,
            code@.len() % 2 == 0,
            data@ + rle_decode_spec(code@.skip(i as int)) == rle_decode_spec(code@),
        decreases code.len() - i,
    {
        let count = code[i];
        let value = code[i + 1];
        let ghost before = data@;
        let ghost tail = code@.skip(i as int);
        let mut k: u8 = 0;
        while k < count
            invariant
                k <= count,
                data@ == before + Seq::new(k as nat, |j: int| value),
            decreases count - k,
        {
            data.push(value);
            k = k + 1;
            assert(data@ =~= before + Seq::new(k as nat, |j: int| value));
        }
        proof {
            assert(tail.skip(2) =~= code@.skip(i + 2));
            assert(tail[0] == count && tail[1] == value);
            assert(data@ + rle_decode_spec(code@.skip(i + 2)) =~= before + rle_decode_spec(tail));
        }
        i = i + 2;
    }
    proof {
        assert(code@.skip(i as int) =~= Seq::<u8>::empty());
        assert(data@ + Seq::<u8>::empty() =~= data@);
    }
    Some(data)
}

/// The lower-case hexadecimal digit of a value below 16.
pub open spec fn hex_digit(nibble: int) -> u8 {
    if nibble < 10 {
        (48 + nibble) as u8
    } else {
        (87 + nibble) as u8
    }
}

/// The value of a hexadecimal digit, of either case; `None` for any other byte.
pub open spec fn hex_value(digit: u8) -> Option<int> {
    if 48 <= digit <= 57 {
        Some(digit - 48)
    } else if 97 <= digit <= 102 {
        Some(digit - 87)
    } else if 65 <= digit <= 70 {
        Some(digit - 55)
    } else {
        None
    }
}

/// `bytes` as printable text: two hexadecimal digits for each byte, high digit first.
pub open spec fn to_text_spec(bytes: Seq<u8>) -> Seq<u8> {
    Seq::new(
        2 * bytes.len(),
        |i: int|
            if i % 2 == 0 {
                hex_digit(bytes[i / 2] as int / 16)
            } else {
                hex_digit(bytes[i / 2] as int % 16)
            },
    )
}

/// Whether `text` is an even number of hexadecimal digits.
pub open spec fn is_text(text: Seq<u8>) -> bool {
    text.len() % 2 == 0 && forall|i: int| 0 <= i < text.len() ==> hex_value(#[trigger] text[i]).is_some()
}

/// The bytes that `text` renders: each pair of digits is one byte.
pub open spec fn from_text_spec(text: Seq<u8>) -> Seq<u8> {
    Seq::new(
        text.len() / 2,
        |i: int| (hex_value(text[2 * i]).unwrap() * 16 + hex_value(text[2 * i + 1]).unwrap()) as u8,
    )
}

/// Reading rendered text gives the bytes back.
pub proof fn lemma_text_round_trip(bytes: Seq<u8>)
    ensures
        is_text(to_text_spec(bytes)),
        from_text_spec(to_text_spec(bytes)) == bytes,
{
    let text = to_text_spec(bytes);
    assert forall|i: int| 0 <= i < text.len() implies hex_value(#[trigger] text[i]).is_some() by {
        let b = bytes[i / 2] as int;
        assert(0 <= b / 16 < 16 && 0 <= b % 16 < 16);
    }
    assert forall|i: int| 0 <= i < bytes.len() implies from_text_spec(text)[i] == bytes[i] by {
        let b = bytes[i] as int;
        assert((2 * i) / 2 == i && (2 * i) % 2 == 0);
        assert((2 * i + 1) / 2 == i && (2 * i + 1) % 2 == 1);
        assert(0 <= b / 16 < 16 && 0 <= b % 16 < 16);
        assert(hex_value(hex_digit(b / 16)) == Some(b / 16));
        assert(hex_value(hex_digit(b % 16)) == Some(b % 16));
        assert((b / 16) * 16 + b % 16 == b);
    }
    assert(from_text_spec(text) =~= bytes);
}

fn digit_of(nibble: u8) -> (digit: u8)
    requires
        nibble < 16,
    ensures
        digit == hex_digit(nibble as int),
{
    if nibble < 10 {
        48 + nibble
    } else {
        87 + nibble
    }
}

fn value_of(digit: u8) -> (value: Option<u8>)
    ensures
        value.is_some() <==> hex_value(digit).is_some(),
        value.is_some() ==> value.unwrap() == hex_value(digit).unwrap(),
{
    if 48 <= digit && digit <= 57 {
        Some(digit - 48)
    } else if 97 <= digit && digit <= 102 {
        Some(digit - 87)
    } else if 65 <= digit && digit <= 70 {
        Some(digit - 55)
    } else {
        None
    }
}

/// Renders bytes as printable text, two lower-case hexadecimal digits per byte.
pub fn to_text(bytes: &[u8]) -> (text: Vec<u8>)
    ensures
        text@ == to_text_spec(bytes@),
{
    let mut text: Vec<u8> = Vec::new();
    let mut i: usize = 0;
    while i < bytes.len()
        invariant
            i <= bytes.len(),
            text@.len() == 2 * i,
            forall|k: int| 0 <= k < 2 * i ==> text@[k] == to_text_spec(bytes@)[k],
        decreases bytes.len() - i,
    {
        let b = bytes[i];
        text.push(digit_of(b / 16));
        text.push(digit_of(b % 16));
        proof {
            assert((2 * i) / 2 == i && (2 * i) % 2 == 0);
            assert((2 * i + 1) / 2 == i && (2 * i + 1) % 2 == 1);
        }
        i = i + 1;
    }
    assert(text@ =~= to_text_spec(bytes@));
    text
}

/// Reads bytes back from printable text. Text that is not an even number of
/// hexadecimal digits is refused.
pub fn from_text(text: &[u8]) -> (bytes: Option<Vec<u8>>)
    ensures
        bytes.is_some() <==> is_text(text@),
        bytes.is_some() ==> bytes.unwrap()@ == from_text_spec(text@),
{
    if text.len() % 2 != 0 {
        return None;
    }
    let mut bytes: Vec<u8> = Vec::new();
    let mut i: usize = 0;
    while i < text.len()
        invariant
            i <= text.len(),
            i % 2 == 0,
            text@.len() % 2 == 0,
            bytes@.len() == i / 2,
            forall|k: int| 0 <= k < i ==> hex_value(#[trigger] text@[k]).is_some(),
            forall|k: int| 0 <= k < i / 2 ==> bytes@[k] == from_text_spec(text@)[k],
        decreases text.len() - i,
    {
        let high = value_of(text[i]);
        let low = value_of(text[i + 1]);
        match (high, low) {
            (Some(h), Some(l)) => {
                bytes.push(h * 16 + l);
                proof {
                    assert(2 * (i as int / 2) == i);
                }
            },
            _ => {
                proof {
                    assert(hex_value(text@[i as int]).is_none() || hex_value(
                        text@[i as int + 1],
                    ).is_none());
                }
                return None;
            },
        }
        i = i + 2;
    }
    assert(bytes@ =~= from_text_spec(text@));
    Some(bytes)
}

/// The stored form of a chunk's cell buffer: its run-length code as printable text.
pub open spec fn encode_chunk_spec(buffer: Seq<u8>) -> Seq<u8> {
    to_text_spec(rle_encode_spec(buffer))
}

/// The cell buffer that a stored chunk holds, if `text` is the text of a sequence of
/// `(count, value)` pairs.
pub open spec fn decode_chunk_spec(text: Seq<u8>) -> Option<Seq<u8>> {
    if is_text(text) && from_text_spec(text).len() % 2 == 0 {
        Some(rle_decode_spec(from_text_spec(text)))
    } else {
        None
    }
}

/// The code of any byte sequence is a whole number of pairs.
pub proof fn lemma_rle_code_is_pairs(data: Seq<u8>, from: int)
    requires
        0 <= from <= data.len(),
    ensures
        rle_encode_from(data, from).len() % 2 == 0,
    decreases data.len() - from,
{
    if from < data.len() {
        lemma_repeats_after(data, from, (MAX_RUN - 1) as nat);
        lemma_rle_code_is_pairs(data, from + run_at(data, from));
    }
}

/// A stored chunk decodes to the buffer it was made from.
pub proof fn lemma_chunk_round_trip(buffer: Seq<u8>)
    ensures
        decode_chunk_spec(encode_chunk_spec(buffer)) == Some(buffer),
{
    lemma_text_round_trip(rle_encode_spec(buffer));
    lemma_rle_code_is_pairs(buffer, 0);
    lemma_rle_round_trip(buffer);
}

/// Compacts a chunk's cell buffer with the run-length scheme and renders it as text.
pub fn encode_chunk(buffer: &[u8]) -> (text: Vec<u8>)
    ensures
        text@ == encode_chunk_spec(buffer@),
        decode_chunk_spec(text@) == Some(buffer@),
{
    let code = rle_encode(buffer);
    proof {
        lemma_chunk_round_trip(buffer@);
    }
    to_text(code.as_slice())
}

/// Reads a stored chunk back into its cell buffer.
pub fn decode_chunk(text: &[u8]) -> (buffer: Option<Vec<u8>>)
    ensures
        match buffer {
            Some(b) => decode_chunk_spec(text@) == Some(b@),
            None => decode_chunk_spec(text@).is_none(),
        },
{
    match from_text(text) {
        Some(code) => rle_decode(code.as_slice()),
        None => None,
    }
}

} // verus!
