//! A set-associative cache simulator: decodes trace instructions and replays
//! them against a cache model with LRU replacement.

use vstd::prelude::*;

pub mod cache;

verus! {

/// Configuration for one simulation run: cache geometry, the trace to replay,
/// and whether the driver should narrate each access.
pub struct Cli {
    pub set_bits: u32,
    pub set_size: usize,
    pub block_bits: u32,
    pub trace_file: String,
    pub verbose: bool,
}

/// One decoded memory-access instruction from the trace.
#[derive(Debug, Clone, Copy, PartialEq, Eq, Structural)]
pub enum Instr {
    Load(u64),
    Store(u64),
    Modify(u64),
}

/// Why a trace line failed to decode.
#[derive(Debug, Clone, Copy, PartialEq, Eq, Structural)]
pub enum DecodeError {
    /// The first character is not `L`, `S` or `M`.
    BadOpChar,
    /// The operation character is not followed by a single space.
    MissingSeparator,
    /// A character before the terminating comma is not a hexadecimal digit.
    BadHexDigit,
}

/// Is `c` a hexadecimal digit (either case)?
pub open spec fn is_hex_digit(c: char) -> bool {
    ||| 48 <= c as u32 <= 57
    ||| 97 <= c as u32 <= 102
    ||| 65 <= c as u32 <= 70
}

/// The numeric value of a hexadecimal digit.
pub open spec fn hex_digit_value(c: char) -> u64 {
    if 48 <= c as u32 <= 57 {
        (c as u32 - 48) as u64
    } else if 97 <= c as u32 <= 102 {
        (c as u32 - 87) as u64
    } else {
        (c as u32 - 55) as u64
    }
}

/// One step of hexadecimal accumulation, wrapping in 64 bits as raw
/// `value * 16 + digit` accumulation does.
pub open spec fn hex_accumulate(acc: u64, d: u64) -> u64 {
    ((acc * 16 + d) % 0x10000000000000000) as u64
}

/// Every character of `s` from position `i` up to the first comma (or the end
/// of the input) is a hexadecimal digit.
pub open spec fn hex_run_ok(s: Seq<char>, i: int) -> bool
    decreases s.len() - i,
{
    if i < 0 || i >= s.len() {
        true
    } else if s[i] == ',' {
        true
    } else if is_hex_digit(s[i]) {
        hex_run_ok(s, i + 1)
    } else {
        false
    }
}

/// The value of the hexadecimal run of `s` that starts at position `i` and
/// ends at the first comma or the end of the input, accumulated onto `acc`.
pub open spec fn hex_run_value(s: Seq<char>, i: int, acc: u64) -> u64
    decreases s.len() - i,
{
    if i < 0 || i >= s.len() || s[i] == ',' {
        acc
    } else {
        hex_run_value(s, i + 1, hex_accumulate(acc, hex_digit_value(s[i])))
    }
}

/// What `decode` returns for any input: the instruction for a well-formed
/// line, and otherwise the error that names the first violated rule.
pub open spec fn decode_spec(s: Seq<char>) -> Result<Instr, DecodeError> {
    if s.len() == 0 || !(s[0] == 'L' || s[0] == 'S' || s[0] == 'M') {
        Err(DecodeError::BadOpChar)
    } else if s.len() < 2 || s[1] != ' ' {
        Err(DecodeError::MissingSeparator)
    } else if !hex_run_ok(s, 2) {
        Err(DecodeError::BadHexDigit)
    } else if s[0] == 'L' {
        Ok(Instr::Load(hex_run_value(s, 2, 0)))
    } else if s[0] == 'S' {
        Ok(Instr::Store(hex_run_value(s, 2, 0)))
    } else {
        Ok(Instr::Modify(hex_run_value(s, 2, 0)))
    }
}

/// The numeric value of `c` as a hexadecimal digit, or `None` when `c` is not
/// a hexadecimal digit.
fn hex_digit(c: char) -> (r: Option<u64>)
    ensures
        r is Some <==> is_hex_digit(c),
        r is Some ==> r->Some_0 == hex_digit_value(c),
{
    let v = c as u32;
    if 48 <= v && v <= 57 {
        Some((v - 48) as u64)
    } else if 97 <= v && v <= 102 {
        Some((v - 87) as u64)
    } else if 65 <= v && v <= 70 {
        Some((v - 55) as u64)
    } else {
        None
    }
}

/// Parse a hexadecimal number from position `start` of `raw` up to the first
/// comma or the end of the input, wrapping in 64 bits. Returns `None` when a
/// non-digit other than the terminating comma is met.
pub fn parse_hex(raw: &str, start: usize) -> (r: Option<u64>)
    ensures
        r is Some <==> hex_run_ok(raw@, start as int),
        r is Some ==> r->Some_0 == hex_run_value(raw@, start as int, 0),
{
    let n = raw.unicode_len();
    let mut i: usize = start;
    let mut acc: u64 = 0;
    while i < n
        invariant
            n == raw@.len(),
            start <= i,
            hex_run_ok(raw@, start as int) <==> hex_run_ok(raw@, i as int),
            hex_run_ok(raw@, i as int) ==> hex_run_value(raw@, start as int, 0)
                == hex_run_value(raw@, i as int, acc),
        decreases n - i,
    {
        let c = raw.get_char(i);
        if c == ',' {
            return Some(acc);
        }
        match hex_digit(c) {
            Some(d) => {
                proof {
                    lemma_hex_accumulate(acc, d);
                }
                acc = acc.wrapping_mul(16).wrapping_add(d);
                i = i + 1;
            },
            None => {
                return None;
            },
        }
    }
    Some(acc)
}

/// The wrapping accumulation step computed with machine operations agrees
/// with `hex_accumulate`.
proof fn lemma_hex_accumulate(acc: u64, d: u64)
    ensures
        vstd::wrapping::u64_specs::wrapping_add(
            vstd::wrapping::u64_specs::wrapping_mul(acc, 16),
            d,
        ) == hex_accumulate(acc, d),
{
    let m: int = 0x10000000000000000;
    let t: int = vstd::wrapping::u64_specs::wrapping_mul(acc, 16) as int;
    assert(t == (acc * 16) % m);
    vstd::arithmetic::div_mod::lemma_add_mod_noop(acc * 16, d as int, m);
    vstd::arithmetic::div_mod::lemma_mod_twice(acc * 16, m);
    vstd::arithmetic::div_mod::lemma_small_mod(d as nat, m as nat);
    assert((t + d) % m == (acc * 16 + d) % m);
    if t + d <= u64::MAX {
        vstd::arithmetic::div_mod::lemma_small_mod((t + d) as nat, m as nat);
    } else {
        vstd::arithmetic::div_mod::lemma_mod_add_multiples_vanish(t + d - m, m);
        vstd::arithmetic::div_mod::lemma_small_mod((t + d - m) as nat, m as nat);
    }
}

impl Instr {
    /// The instruction for operation character `c`, which must be one of the
    /// three that the trace grammar admits.
    fn new(c: char, addr: u64) -> (r: Instr)
        requires
            c == 'L' || c == 'S' || c == 'M',
        ensures
            r == (if c == 'L' {
                Instr::Load(addr)
            } else if c == 'S' {
                Instr::Store(addr)
            } else {
                Instr::Modify(addr)
            }),
    {
        if c == 'L' {
            Instr::Load(addr)
        } else if c == 'S' {
            Instr::Store(addr)
        } else {
            Instr::Modify(addr)
        }
    }

    /// Decode a trace-line payload that is known to be well formed.
    /// Malformed payloads are ruled out by the caller; `decode` reports them.
    pub fn from_string(raw: &String) -> (r: Instr)
        requires
            decode_spec(raw@) is Ok,
        ensures
            Ok::<Instr, DecodeError>(r) == decode_spec(raw@),
    {
        match decode(raw.as_str()) {
            Ok(ins) => ins,
            Err(_) => vstd::pervasive::unreached(),
        }
    }
}

/// Decode one trace-line payload of the form `"<op> <hex-address>"`, where
/// `<op>` is `L`, `S` or `M` and the address runs to the first comma or the
/// end of the input.
pub fn decode(raw: &str) -> (r: Result<Instr, DecodeError>)
    ensures
        r == decode_spec(raw@),
{
    let n = raw.unicode_len();
    if n == 0 {
        return Err(DecodeError::BadOpChar);
    }
    let op = raw.get_char(0);
    if !(op == 'L' || op == 'S' || op == 'M') {
        return Err(DecodeError::BadOpChar);
    }
    if n < 2 {
        return Err(DecodeError::MissingSeparator);
    }
    if raw.get_char(1) != ' ' {
        return Err(DecodeError::MissingSeparator);
    }
    match parse_hex(raw, 2) {
        Some(addr) => Ok(Instr::new(op, addr)),
        None => Err(DecodeError::BadHexDigit),
    }
}

} // verus!
