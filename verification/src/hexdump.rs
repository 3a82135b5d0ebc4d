//! The lines of a hex dump of a byte buffer.

use vstd::prelude::*;

verus! {

/// The upper-case hexadecimal digit of `n` (0 to 15).
pub open spec fn hex_upper(n: int) -> u8 {
    if n < 10 {
        (48 + n) as u8
    } else {
        (55 + n) as u8
    }
}

/// The `j`-th hexadecimal digit of `x`, counting from the least significant.
pub open spec fn nibble(x: nat, j: nat) -> nat
    decreases j,
{
    if j == 0 {
        x % 16
    } else {
        nibble(x / 16, (j - 1) as nat)
    }
}

/// A byte as it stands in the text column: itself when printable ASCII,
/// otherwise a dot.
pub open spec fn shown(b: u8) -> u8 {
    if 0x20 <= b < 0x7f {
        b
    } else {
        46u8
    }
}

/// One line of a hex dump of the bytes `chunk` found at `offset`: the offset
/// in eight upper-case hex digits from column 0, each byte as two hex digits
/// from column 10 on, three columns apart, and the bytes as text from
/// column 60 on; blanks elsewhere.
pub open spec fn dump_line(offset: nat, chunk: Seq<u8>) -> Seq<u8> {
    Seq::new(
        60 + chunk.len(),
        |k: int|
            if k < 8 {
                hex_upper(nibble(offset, (7 - k) as nat) as int)
            } else if 10 <= k < 10 + 3 * chunk.len() && (k - 10) % 3 == 0 {
                hex_upper((chunk[(k - 10) / 3] / 16) as int)
            } else if 10 <= k < 10 + 3 * chunk.len() && (k - 10) % 3 == 1 {
                hex_upper((chunk[(k - 10) / 3] % 16) as int)
            } else if k >= 60 {
                shown(chunk[k - 60])
            } else {
                32u8
            },
    )
}

/// The lines of a hex dump of `data`: one line per 16 bytes.
pub open spec fn dump_lines(data: Seq<u8>) -> Seq<Seq<u8>> {
    Seq::new(
        ((data.len() + 15) / 16) as nat,
        |i: int|
            dump_line(
                (16 * i) as nat,
                data.subrange(16 * i, if 16 * i + 16 <= data.len() { 16 * i + 16 } else { data.len() as int }),
            ),
    )
}

fn hex_upper_digit(n: u8) -> (d: u8)
    requires
        n < 16,
    ensures
        d == hex_upper(n as int),
{
    if n < 10 {
        48 + n
    } else {
        55 + n
    }
}

/// One line of a hex dump of the bytes `chunk` (at most 16) found at
/// `offset`.
pub fn dump_line_of(offset: usize, chunk: &[u8]) -> (line: Vec<u8>)
    requires
        chunk@.len() <= 16,
    ensures
        line@ == dump_line(offset as nat, chunk@),
{
    let mut buf: Vec<u8> = vec![32u8; 80];
    let mut off = offset;
    let mut j: usize = 0;
    assert(pow16(0) == 1);
    assert(offset as nat / 1 == offset as nat);
    while j < 8
        invariant
            j <= 8,
            buf@.len() == 80,
            off as nat == offset as nat / pow16(j as nat),
            forall|k: int| 8 - j <= k < 8 ==> #[trigger] buf@[k] == hex_upper(nibble(offset as nat, (7 - k) as nat) as int),
            forall|k: int| 8 <= k < 80 ==> #[trigger] buf@[k] == 32u8,
        decreases 8 - j,
    {
        let d = hex_upper_digit((off % 16) as u8);
        buf.set(7 - j, d);
        proof {
            lemma_nibble(offset as nat, j as nat);
            lemma_pow16_step(offset as nat, j as nat);
        }
        off = off / 16;
        j = j + 1;
    }
    let n = chunk.len();
    let mut i: usize = 0;
    while i < n
        invariant
            n == chunk@.len(),
            n <= 16,
            i <= n,
            buf@.len() == 80,
            forall|k: int| 0 <= k < 8 ==> #[trigger] buf@[k] == hex_upper(nibble(offset as nat, (7 - k) as nat) as int),
            forall|k: int| 8 <= k < 60 ==> #[trigger] buf@[k] == (if 10 <= k < 10 + 3 * i && (k - 10) % 3 == 0 {
                hex_upper((chunk@[(k - 10) / 3] / 16) as int)
            } else if 10 <= k < 10 + 3 * i && (k - 10) % 3 == 1 {
                hex_upper((chunk@[(k - 10) / 3] % 16) as int)
            } else {
                32u8
            }),
            forall|k: int| 60 <= k < 60 + i ==> #[trigger] buf@[k] == shown(chunk@[k - 60]),
            forall|k: int| 60 + i <= k < 80 ==> #[trigger] buf@[k] == 32u8,
        decreases n - i,
    {
        let b = chunk[i];
        buf.set(10 + i * 3, hex_upper_digit(b / 16));
        buf.set(11 + i * 3, hex_upper_digit(b % 16));
        let t = if 0x20 <= b && b < 0x7f { b } else { 46u8 };
        buf.set(60 + i, t);
        i = i + 1;
    }
    buf.truncate(60 + n);
    proof {
        assert(buf@ =~= dump_line(offset as nat, chunk@));
    }
    buf
}

/// 16 to the power `j`.
pub open spec fn pow16(j: nat) -> nat
    decreases j,
{
    if j == 0 {
        1
    } else {
        16 * pow16((j - 1) as nat)
    }
}

proof fn lemma_pow16_pos(j: nat)
    ensures
        pow16(j) >= 1,
    decreases j,
{
    if j > 0 {
        lemma_pow16_pos((j - 1) as nat);
    }
}

proof fn lemma_nibble(x: nat, j: nat)
    ensures
        nibble(x, j) == (x / pow16(j)) % 16,
    decreases j,
{
    if j > 0 {
        lemma_nibble(x / 16, (j - 1) as nat);
        lemma_pow16_pos((j - 1) as nat);
        lemma_div_div(x, 16, pow16((j - 1) as nat));
        assert(pow16(j) == 16 * pow16((j - 1) as nat));
        assert(nibble(x, j) == nibble(x / 16, (j - 1) as nat));
    } else {
        assert(x / 1 == x);
    }
}

proof fn lemma_pow16_step(x: nat, j: nat)
    ensures
        x / pow16(j) / 16 == x / pow16(j + 1),
{
    lemma_pow16_pos(j);
    lemma_div_div(x, pow16(j), 16);
    assert(pow16(j + 1) == 16 * pow16(j));
}

proof fn lemma_div_div(x: nat, a: nat, b: nat)
    requires
        a >= 1,
        b >= 1,
    ensures
        x / a / b == x / (a * b),
{
    vstd::arithmetic::div_mod::lemma_div_denominator(x as int, a as int, b as int);
}

/// The value of a digit of "0123456789ABCDEF", or -1 for any other byte.
pub open spec fn hex_digit_value(c: u8) -> int {
    if 48 <= c <= 57 {
        c - 48
    } else if 65 <= c <= 70 {
        c - 55
    } else {
        -1
    }
}

proof fn lemma_hex_upper_value(n: int)
    requires
        0 <= n < 16,
    ensures
        hex_digit_value(hex_upper(n)) == n,
{
}

/// A line of a dump reads back: its first eight columns are the upper-case
/// hex digits of the offset, most significant first; each byte of the chunk
/// stands as two upper-case hex digits, high digit first, that read back as
/// the byte, followed by a blank; and the text column shows the byte itself
/// when it is printable ASCII and a dot otherwise.
pub proof fn law_dump_line(offset: nat, chunk: Seq<u8>)
    requires
        chunk.len() <= 16,
    ensures
        ({
            let line = dump_line(offset, chunk);
            &&& line.len() == 60 + chunk.len()
            &&& forall|k: int|
                0 <= k < 8 ==> 0 <= hex_digit_value(#[trigger] line[k]) && hex_digit_value(line[k]) == (offset
                    / pow16((7 - k) as nat)) % 16
            &&& forall|j: int|
                0 <= j < chunk.len() ==> {
                    &&& 0 <= hex_digit_value(line[10 + 3 * j])
                    &&& 0 <= hex_digit_value(line[11 + 3 * j])
                    &&& 16 * hex_digit_value(line[10 + 3 * j]) + hex_digit_value(line[11 + 3 * j]) == #[trigger] chunk[j]
                    &&& line[12 + 3 * j] == 32u8
                    &&& line[60 + j] == (if 0x20 <= chunk[j] < 0x7f { chunk[j] } else { 46u8 })
                }
        }),
{
    let line = dump_line(offset, chunk);
    assert forall|k: int|
        0 <= k < 8 implies 0 <= hex_digit_value(#[trigger] line[k]) && hex_digit_value(line[k]) == (offset
            / pow16((7 - k) as nat)) % 16 by {
        lemma_nibble(offset, (7 - k) as nat);
        lemma_hex_upper_value(nibble(offset, (7 - k) as nat) as int);
    }
    assert forall|j: int| 0 <= j < chunk.len() implies {
        &&& 0 <= hex_digit_value(line[10 + 3 * j])
        &&& 0 <= hex_digit_value(line[11 + 3 * j])
        &&& 16 * hex_digit_value(line[10 + 3 * j]) + hex_digit_value(line[11 + 3 * j]) == #[trigger] chunk[j]
        &&& line[12 + 3 * j] == 32u8
        &&& line[60 + j] == (if 0x20 <= chunk[j] < 0x7f { chunk[j] } else { 46u8 })
    } by {
        let b = chunk[j];
        assert((10 + 3 * j - 10) / 3 == j);
        assert((11 + 3 * j - 10) / 3 == j);
        assert((10 + 3 * j - 10) % 3 == 0);
        assert((11 + 3 * j - 10) % 3 == 1);
        assert((12 + 3 * j - 10) % 3 == 2);
        lemma_hex_upper_value((b / 16) as int);
        lemma_hex_upper_value((b % 16) as int);
    }
}

/// A dump reads back as the data: the line of byte `m` is line `m / 16`; its
/// offset columns read back as `16 * (m / 16)`, its hex columns for that byte
/// as the byte, and its text column shows the byte or a dot.
pub proof fn law_hexdump(data: Seq<u8>)
    ensures
        dump_lines(data).len() == (data.len() + 15) / 16,
        forall|i: int, k: int|
            0 <= i < dump_lines(data).len() && 0 <= k < 8 ==> hex_digit_value(#[trigger] dump_lines(data)[i][k])
                == ((16 * i) / (pow16((7 - k) as nat) as int)) % 16,
        forall|m: int|
            0 <= m < data.len() ==> {
                let l = dump_lines(data)[m / 16];
                let c = m % 16;
                &&& 0 <= hex_digit_value(l[10 + 3 * c])
                &&& 0 <= hex_digit_value(l[11 + 3 * c])
                &&& 16 * hex_digit_value(l[10 + 3 * c]) + hex_digit_value(l[11 + 3 * c]) == #[trigger] data[m]
                &&& l[60 + c] == (if 0x20 <= data[m] < 0x7f { data[m] } else { 46u8 })
            },
{
    let lines = dump_lines(data);
    assert forall|i: int, k: int|
        0 <= i < lines.len() && 0 <= k < 8 implies hex_digit_value(#[trigger] lines[i][k]) == ((16 * i)
            / (pow16((7 - k) as nat) as int)) % 16 by {
        let chunk = lemma_line_chunk(data, i);
        law_dump_line((16 * i) as nat, chunk);
    }
    assert forall|m: int| 0 <= m < data.len() implies {
        let l = dump_lines(data)[m / 16];
        let c = m % 16;
        &&& 0 <= hex_digit_value(l[10 + 3 * c])
        &&& 0 <= hex_digit_value(l[11 + 3 * c])
        &&& 16 * hex_digit_value(l[10 + 3 * c]) + hex_digit_value(l[11 + 3 * c]) == #[trigger] data[m]
        &&& l[60 + c] == (if 0x20 <= data[m] < 0x7f { data[m] } else { 46u8 })
    } by {
        lemma_byte_line(data, m);
    }
}

/// Line `i` of a dump is the line of its chunk of at most 16 bytes.
proof fn lemma_line_chunk(data: Seq<u8>, i: int) -> (chunk: Seq<u8>)
    requires
        0 <= i < (data.len() + 15) / 16,
    ensures
        16 * i <= data.len(),
        chunk == data.subrange(16 * i, if 16 * i + 16 <= data.len() { 16 * i + 16 } else { data.len() as int }),
        chunk.len() <= 16,
        dump_lines(data)[i] == dump_line((16 * i) as nat, chunk),
{
    assert(16 * i <= data.len()) by (nonlinear_arith)
        requires
            0 <= i < (data.len() + 15) / 16,
    ;
    data.subrange(16 * i, if 16 * i + 16 <= data.len() { 16 * i + 16 } else { data.len() as int })
}

proof fn lemma_byte_line(data: Seq<u8>, m: int)
    requires
        0 <= m < data.len(),
    ensures
        ({
            let l = dump_lines(data)[m / 16];
            let c = m % 16;
            &&& 0 <= hex_digit_value(l[10 + 3 * c])
            &&& 0 <= hex_digit_value(l[11 + 3 * c])
            &&& 16 * hex_digit_value(l[10 + 3 * c]) + hex_digit_value(l[11 + 3 * c]) == data[m]
            &&& l[60 + c] == (if 0x20 <= data[m] < 0x7f { data[m] } else { 46u8 })
        }),
{
    let i = m / 16;
    let c = m % 16;
    assert(m == 16 * i + c && 0 <= c < 16);
    assert(i < (data.len() + 15) / 16);
    let chunk = lemma_line_chunk(data, i);
    assert(c < chunk.len());
    assert(chunk[c] == data[m]);
    law_dump_line((16 * i) as nat, chunk);
}

/// The lines of a hex dump of `data`, 16 bytes per line: the offset of the
/// line, the bytes in hexadecimal, and the bytes as text.
pub fn hexdump(data: &[u8]) -> (lines: Vec<Vec<u8>>)
    ensures
        lines@.len() == dump_lines(data@).len(),
        forall|i: int| 0 <= i < lines@.len() ==> #[trigger] lines@[i]@ == dump_lines(data@)[i],
{
    let len = data.len();
    let nlines = len / 16 + if len % 16 == 0 { 0 } else { 1 };
    assert(nlines == (len + 15) / 16);
    let mut lines: Vec<Vec<u8>> = Vec::new();
    let mut i: usize = 0;
    while i < nlines
        invariant
            len == data@.len(),
            nlines == (len + 15) / 16,
            i <= nlines,
            lines@.len() == i,
            forall|k: int| 0 <= k < lines@.len() ==> #[trigger] lines@[k]@ == dump_lines(data@)[k],
        decreases nlines - i,
    {
        assert(16 * i < len) by (nonlinear_arith)
            requires
                i < nlines,
                nlines == (len + 15) / 16,
        ;
        let start = 16 * i;
        let end = if len - start >= 16 { start + 16 } else { len };
        let line = dump_line_of(start, &data[start..end]);
        lines.push(line);
        i = i + 1;
    }
    lines
}

} // verus!
