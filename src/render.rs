//! Fixed-width text for chosen numbers, and the whole enumeration as text.

use vstd::prelude::*;
use crate::digits::{BASE, lemma_fitting_width, weight};
use crate::select::{Selector, is_greedy_code};

verus! {

/// ASCII `'0'`.
pub const ASCII_ZERO: u8 = 0x30;

/// ASCII line feed.
pub const ASCII_NEWLINE: u8 = 0x0A;

/// The widest field that the standard formatter pads to.
pub const MAX_WIDTH: usize = 65535;

/// The ASCII digit for `d`.
pub open spec fn digit_byte(d: nat) -> u8 {
    (d + ASCII_ZERO as nat) as u8
}

/// The lowest `width` digits of `x` as ASCII text, most significant first.
pub open spec fn digit_text(x: nat, width: nat) -> Seq<u8>
    decreases width,
{
    if width == 0 {
        Seq::empty()
    } else {
        digit_text(x / BASE as nat, (width - 1) as nat).push(digit_byte(x % BASE as nat))
    }
}

/// `x` as a line of `width` zero-padded digits.
pub open spec fn line_of(x: nat, width: nat) -> Seq<u8> {
    digit_text(x, width).push(ASCII_NEWLINE)
}

/// One line per number of `s`, in order.
pub open spec fn lines_of(s: Seq<nat>, width: nat) -> Seq<u8>
    decreases s.len(),
{
    if s.len() == 0 {
        Seq::empty()
    } else {
        lines_of(s.drop_last(), width) + line_of(s.last(), width)
    }
}

/// ASCII bytes read as characters.
pub open spec fn text_of(bytes: Seq<u8>) -> Seq<char> {
    bytes.map_values(|b: u8| b as char)
}

pub open spec fn is_ascii(bytes: Seq<u8>) -> bool {
    forall|i: int| 0 <= i < bytes.len() ==> #[trigger] bytes[i] < 128
}

/// Relies on `format!` with `{:0width$}`: the decimal digits of `num`, padded
/// with leading zeros to `width`, followed by a newline, as bytes. A width
/// above `u16::MAX` makes the formatter panic.
#[verifier::external_body]
fn format_padded_line(num: usize, width: usize) -> (r: Vec<u8>)
    requires
        1 <= width <= MAX_WIDTH,
        num < weight(width as nat),
    ensures
        r@ == line_of(num as nat, width as nat),
{
    format!("{:0width$}\n", num, width = width).into_bytes()
}

/// Relies on `String::from_utf8_lossy`: ASCII bytes are valid UTF-8 and are
/// kept as they are, one character each.
#[verifier::external_body]
fn ascii_string(bytes: &Vec<u8>) -> (r: String)
    requires
        is_ascii(bytes@),
    ensures
        r@ == text_of(bytes@),
{
    String::from_utf8_lossy(bytes).to_string()
}

proof fn lemma_digit_text_ascii(x: nat, width: nat)
    ensures
        is_ascii(digit_text(x, width)),
        digit_text(x, width).len() == width,
    decreases width,
{
    if width > 0 {
        lemma_digit_text_ascii(x / BASE as nat, (width - 1) as nat);
    }
}

proof fn lemma_lines_ascii(s: Seq<nat>, width: nat)
    ensures
        is_ascii(lines_of(s, width)),
    decreases s.len(),
{
    if s.len() > 0 {
        lemma_lines_ascii(s.drop_last(), width);
        lemma_digit_text_ascii(s.last(), width);
    }
}

proof fn lemma_lines_push(s: Seq<nat>, x: nat, width: nat)
    ensures
        lines_of(s.push(x), width) == lines_of(s, width) + line_of(x, width),
{
    assert(s.push(x).drop_last() =~= s);
}

/// A way of appending a number to an output as a line of fixed-width text.
pub trait WriteNum {
    /// Appends `num` as `n_digits` zero-padded digits and a newline.
    fn write(&mut self, out: &mut Vec<u8>, n_digits: usize, num: usize)
        requires
            1 <= n_digits <= MAX_WIDTH,
            num < weight(n_digits as nat),
        ensures
            final(out)@ == old(out)@ + line_of(num as nat, n_digits as nat),
    ;
}

/// Renders each number with the standard formatter.
#[derive(Default)]
pub struct WriteNumEasy;

impl WriteNum for WriteNumEasy {
    fn write(&mut self, out: &mut Vec<u8>, n_digits: usize, num: usize) {
        let mut line = format_padded_line(num, n_digits);
        out.append(&mut line);
    }
}

/// Renders each number into a reused buffer, placing the digits from the
/// least significant one (at the right) to the most significant one.
pub struct WriteNumReverse {
    buf: Vec<u8>,
}

impl WriteNumReverse {
    /// The digit width that the buffer is laid out for.
    pub closed spec fn width(&self) -> nat {
        (self.buf@.len() - 1) as nat
    }

    /// A writer whose buffer holds `n_digits` digits and a newline.
    pub fn new(n_digits: usize) -> (r: Self)
        requires
            n_digits < usize::MAX,
        ensures
            r.width() == n_digits,
    {
        let mut buf: Vec<u8> = vec![ASCII_ZERO; n_digits + 1];
        buf.set(n_digits, ASCII_NEWLINE);
        WriteNumReverse { buf }
    }
}

impl WriteNum for WriteNumReverse {
    fn write(&mut self, out: &mut Vec<u8>, n_digits: usize, num: usize) {
        if self.buf.len() != n_digits + 1 {
            self.buf = vec![ASCII_ZERO; n_digits + 1];
        }
        let ghost n = n_digits as nat;
        let mut rest: usize = num;
        let mut i: usize = 0;
        while i < n_digits
            invariant
                i <= n_digits,
                n == n_digits,
                self.buf@.len() == n_digits + 1,
                digit_text(num as nat, n) == digit_text(rest as nat, (n - i) as nat)
                    + self.buf@.subrange(n - i, n as int),
            decreases n_digits - i,
        {
            let pos = n_digits - 1 - i;
            let ghost before = self.buf@;
            let d = rest % BASE;
            self.buf.set(pos, ASCII_ZERO + d as u8);
            proof {
                assert(self.buf@.subrange(pos as int, n as int) =~= seq![digit_byte(d as nat)]
                    + before.subrange(n - i, n as int));
                let t = digit_text((rest / BASE) as nat, (n - i - 1) as nat);
                assert(digit_text(rest as nat, (n - i) as nat) == t.push(digit_byte(d as nat)));
                assert(t.push(digit_byte(d as nat)) + before.subrange(n - i, n as int) =~= t
                    + self.buf@.subrange(pos as int, n as int));
            }
            rest = rest / BASE;
            i = i + 1;
        }
        self.buf.set(n_digits, ASCII_NEWLINE);
        proof {
            assert(self.buf@ =~= line_of(num as nat, n));
        }
        let ghost start = out@;
        let mut k: usize = 0;
        while k <= n_digits
            invariant
                k <= n_digits + 1,
                self.buf@.len() == n_digits + 1,
                n_digits < usize::MAX,
                out@ == start + self.buf@.subrange(0, k as int),
            decreases n_digits + 1 - k,
        {
            out.push(self.buf[k]);
            proof {
                assert(self.buf@.subrange(0, k + 1) =~= self.buf@.subrange(0, k as int).push(
                    self.buf@[k as int],
                ));
            }
            k = k + 1;
        }
        proof {
            assert(self.buf@.subrange(0, n_digits + 1) =~= self.buf@);
        }
    }
}

/// Writes the complete greedy selection of the `n_digits`-digit domain to
/// `out`, one line per number in ascending order, and returns its size.
pub fn write_numbers<W: WriteNum>(write_num: &mut W, out: &mut Vec<u8>, n_digits: usize) -> (count:
    usize)
    requires
        1 <= n_digits,
        weight(n_digits as nat) <= usize::MAX,
    ensures
        exists|s: Seq<nat>|
            is_greedy_code(s, n_digits as nat) && count == s.len() && final(out)@ == old(out)@
                + lines_of(s, n_digits as nat),
{
    let ghost n = n_digits as nat;
    let ghost start = out@;
    proof {
        lemma_fitting_width(n);
    }
    let mut sel = Selector::new(n_digits).unwrap();
    let mut done = false;
    while !done
        invariant
            sel.wf(),
            sel.n_digits() == n,
            n == n_digits,
            1 <= n_digits <= MAX_WIDTH,
            sel.chosen().len() <= weight(n),
            done ==> is_greedy_code(sel.chosen(), n),
            out@ == start + lines_of(sel.chosen(), n),
        decreases weight(n) + 1 - sel.chosen().len() - (if done { 1int } else { 0int }),
    {
        let ghost before = sel.chosen();
        match sel.next_selected() {
            Some(current) => {
                write_num.write(out, n_digits, current);
                proof {
                    lemma_lines_push(before, current as nat, n);
                    assert(out@ =~= start + lines_of(sel.chosen(), n));
                }
            },
            None => {
                done = true;
            },
        }
    }
    sel.count()
}

/// The numbers of `numbers` as the lines that `write_num` writes, as text.
pub fn numbers_as_string<W: WriteNum>(write_num: &mut W, n_digits: usize, numbers: &[usize]) -> (r:
    String)
    requires
        1 <= n_digits <= MAX_WIDTH,
        forall|i: int| 0 <= i < numbers@.len() ==> #[trigger] numbers@[i] < weight(n_digits as nat),
    ensures
        r@ == text_of(lines_of(numbers@.map_values(|v: usize| v as nat), n_digits as nat)),
{
    let ghost n = n_digits as nat;
    let ghost all = numbers@.map_values(|v: usize| v as nat);
    let mut out: Vec<u8> = Vec::new();
    let mut i: usize = 0;
    while i < numbers.len()
        invariant
            i <= numbers@.len(),
            n == n_digits,
            1 <= n_digits <= MAX_WIDTH,
            all == numbers@.map_values(|v: usize| v as nat),
            forall|j: int| 0 <= j < numbers@.len() ==> #[trigger] numbers@[j] < weight(n),
            out@ == lines_of(all.take(i as int), n),
        decreases numbers@.len() - i,
    {
        write_num.write(&mut out, n_digits, numbers[i]);
        proof {
            lemma_lines_push(all.take(i as int), numbers@[i as int] as nat, n);
            assert(all.take(i + 1) =~= all.take(i as int).push(numbers@[i as int] as nat));
        }
        i = i + 1;
    }
    proof {
        assert(all.take(numbers@.len() as int) =~= all);
        lemma_lines_ascii(all, n);
    }
    ascii_string(&out)
}

/// The complete greedy selection of the `n_digits`-digit domain as the lines
/// that `write_num` writes, as text.
pub fn generate_number_string<W: WriteNum>(write_num: &mut W, n_digits: usize) -> (r: String)
    requires
        1 <= n_digits,
        weight(n_digits as nat) <= usize::MAX,
    ensures
        exists|s: Seq<nat>|
            is_greedy_code(s, n_digits as nat) && r@ == text_of(lines_of(s, n_digits as nat)),
{
    let mut out: Vec<u8> = Vec::new();
    write_numbers(write_num, &mut out, n_digits);
    let ghost s = choose|s: Seq<nat>|
        is_greedy_code(s, n_digits as nat) && out@ == Seq::<u8>::empty() + lines_of(
            s,
            n_digits as nat,
        );
    proof {
        assert(out@ =~= lines_of(s, n_digits as nat));
        lemma_lines_ascii(s, n_digits as nat);
    }
    ascii_string(&out)
}

} // verus!
