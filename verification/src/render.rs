//! Rendering the report: one `<address>:<port>` line per open pair on the
//! normal path, and one `error: <message>` line per delivery failure.
use vstd::prelude::*;
use vstd::string::StringExecFns;
use crate::address::IpAddress;
use crate::scheduler::ScanTarget;

verus! {

/// The decimal digit characters, lowest first.
pub open spec fn dec_digit(d: nat) -> char {
    if d == 0 {
        '0'
    } else if d == 1 {
        '1'
    } else if d == 2 {
        '2'
    } else if d == 3 {
        '3'
    } else if d == 4 {
        '4'
    } else if d == 5 {
        '5'
    } else if d == 6 {
        '6'
    } else if d == 7 {
        '7'
    } else if d == 8 {
        '8'
    } else {
        '9'
    }
}

/// The decimal notation of a number: most significant digit first, no
/// leading zeros (a lone zero for zero itself).
pub open spec fn dec_chars(n: nat) -> Seq<char>
    decreases n,
{
    if n < 10 {
        seq![dec_digit(n)]
    } else {
        dec_chars(n / 10).push(dec_digit(n % 10))
    }
}

/// The lowercase hexadecimal digit characters, lowest first.
pub open spec fn hex_digit(d: nat) -> char {
    if d < 10 {
        dec_digit(d)
    } else if d == 10 {
        'a'
    } else if d == 11 {
        'b'
    } else if d == 12 {
        'c'
    } else if d == 13 {
        'd'
    } else if d == 14 {
        'e'
    } else {
        'f'
    }
}

/// The lowercase hexadecimal notation of a number, without leading zeros.
pub open spec fn hex_chars(n: nat) -> Seq<char>
    decreases n,
{
    if n < 16 {
        seq![hex_digit(n)]
    } else {
        hex_chars(n / 16).push(hex_digit(n % 16))
    }
}

/// An IPv4 address's text: the four octets in decimal, dot-separated.
pub open spec fn v4_chars(ip: u32) -> Seq<char> {
    dec_chars((ip / 0x100_0000) as nat) + seq!['.'] + dec_chars(((ip / 0x1_0000) % 0x100) as nat)
        + seq!['.'] + dec_chars(((ip / 0x100) % 0x100) as nat) + seq!['.'] + dec_chars(
        (ip % 0x100) as nat,
    )
}

/// An IPv6 address's text: the eight 16-bit groups in lowercase hexadecimal,
/// colon-separated, every group written out (no `::` shorthand).
pub open spec fn v6_chars(ip: u128) -> Seq<char> {
    hex_chars((ip / 0x1_0000_0000_0000_0000_0000_0000_0000) as nat) + seq![':'] + hex_chars(
        ((ip / 0x1_0000_0000_0000_0000_0000_0000) % 0x1_0000) as nat,
    ) + seq![':'] + hex_chars(((ip / 0x1_0000_0000_0000_0000_0000) % 0x1_0000) as nat) + seq![':']
        + hex_chars(((ip / 0x1_0000_0000_0000_0000) % 0x1_0000) as nat) + seq![':'] + hex_chars(
        ((ip / 0x1_0000_0000_0000) % 0x1_0000) as nat,
    ) + seq![':'] + hex_chars(((ip / 0x1_0000_0000) % 0x1_0000) as nat) + seq![':'] + hex_chars(
        ((ip / 0x1_0000) % 0x1_0000) as nat,
    ) + seq![':'] + hex_chars((ip % 0x1_0000) as nat)
}

/// An address's text, whichever family it belongs to.
pub open spec fn addr_chars(a: IpAddress) -> Seq<char> {
    match a {
        IpAddress::V4(ip) => v4_chars(ip),
        IpAddress::V6(ip) => v6_chars(ip),
    }
}

/// A report line's text: the address, a colon, the port in decimal.
pub open spec fn target_chars(t: ScanTarget) -> Seq<char> {
    addr_chars(t.addr) + seq![':'] + dec_chars(t.port as nat)
}

/// The one decimal digit as text.
fn dec_digit_str(d: u32) -> (s: &'static str)
    requires
        d < 10,
    ensures
        s@ =~= seq![dec_digit(d as nat)],
{
    proof {
        reveal_strlit("0");
        reveal_strlit("1");
        reveal_strlit("2");
        reveal_strlit("3");
        reveal_strlit("4");
        reveal_strlit("5");
        reveal_strlit("6");
        reveal_strlit("7");
        reveal_strlit("8");
        reveal_strlit("9");
    }
    match d {
        0 => "0",
        1 => "1",
        2 => "2",
        3 => "3",
        4 => "4",
        5 => "5",
        6 => "6",
        7 => "7",
        8 => "8",
        _ => "9",
    }
}

/// The one lowercase hexadecimal digit as text.
fn hex_digit_str(d: u32) -> (s: &'static str)
    requires
        d < 16,
    ensures
        s@ =~= seq![hex_digit(d as nat)],
{
    proof {
        reveal_strlit("a");
        reveal_strlit("b");
        reveal_strlit("c");
        reveal_strlit("d");
        reveal_strlit("e");
        reveal_strlit("f");
    }
    if d < 10 {
        dec_digit_str(d)
    } else {
        match d {
            10 => "a",
            11 => "b",
            12 => "c",
            13 => "d",
            14 => "e",
            _ => "f",
        }
    }
}

/// Append a number's decimal notation.
fn push_dec(out: &mut String, n: u32)
    ensures
        final(out)@ == old(out)@ + dec_chars(n as nat),
    decreases n,
{
    if n >= 10 {
        push_dec(out, n / 10);
    }
    let digit = dec_digit_str(n % 10);
    out.append(digit);
    proof {
        if n < 10 {
            assert(n % 10 == n);
        }
        assert(out@ =~= old(out)@ + dec_chars(n as nat));
    }
}

/// Append a number's lowercase hexadecimal notation.
fn push_hex(out: &mut String, n: u32)
    ensures
        final(out)@ == old(out)@ + hex_chars(n as nat),
    decreases n,
{
    if n >= 16 {
        push_hex(out, n / 16);
    }
    let digit = hex_digit_str(n % 16);
    out.append(digit);
    proof {
        if n < 16 {
            assert(n % 16 == n);
        }
        assert(out@ =~= old(out)@ + hex_chars(n as nat));
    }
}

/// Render an address as the text the report uses.
pub fn format_address(a: &IpAddress) -> (r: String)
    ensures
        r@ == addr_chars(*a),
{
    let mut s = String::new();
    proof {
        reveal_strlit(".");
        reveal_strlit(":");
    }
    match *a {
        IpAddress::V4(ip) => {
            push_dec(&mut s, ip / 0x100_0000);
            s.append(".");
            push_dec(&mut s, (ip / 0x1_0000) % 0x100);
            s.append(".");
            push_dec(&mut s, (ip / 0x100) % 0x100);
            s.append(".");
            push_dec(&mut s, ip % 0x100);
            proof {
                assert(s@ =~= addr_chars(*a));
            }
        },
        IpAddress::V6(ip) => {
            push_hex(&mut s, (ip / 0x1_0000_0000_0000_0000_0000_0000_0000) as u32);
            s.append(":");
            push_hex(&mut s, ((ip / 0x1_0000_0000_0000_0000_0000_0000) % 0x1_0000) as u32);
            s.append(":");
            push_hex(&mut s, ((ip / 0x1_0000_0000_0000_0000_0000) % 0x1_0000) as u32);
            s.append(":");
            push_hex(&mut s, ((ip / 0x1_0000_0000_0000_0000) % 0x1_0000) as u32);
            s.append(":");
            push_hex(&mut s, ((ip / 0x1_0000_0000_0000) % 0x1_0000) as u32);
            s.append(":");
            push_hex(&mut s, ((ip / 0x1_0000_0000) % 0x1_0000) as u32);
            s.append(":");
            push_hex(&mut s, ((ip / 0x1_0000) % 0x1_0000) as u32);
            s.append(":");
            push_hex(&mut s, (ip % 0x1_0000) as u32);
            proof {
                assert(s@ =~= addr_chars(*a));
            }
        },
    }
    s
}

/// Render one report line: `<address>:<port>`.
pub fn format_target(t: &ScanTarget) -> (r: String)
    ensures
        r@ == target_chars(*t),
{
    let mut s = format_address(&t.addr);
    proof {
        reveal_strlit(":");
    }
    s.append(":");
    push_dec(&mut s, t.port as u32);
    proof {
        assert(s@ =~= target_chars(*t));
    }
    s
}

/// Render the whole report, one `<address>:<port>` line per delivered pair,
/// in the order the pairs were drained; an empty report renders no lines.
pub fn report_lines(reported: &Vec<ScanTarget>) -> (lines: Vec<String>)
    ensures
        lines@.len() == reported@.len(),
        forall|i: int| 0 <= i < lines@.len() ==> #[trigger] lines@[i]@ == target_chars(
            reported@[i],
        ),
{
    let mut lines: Vec<String> = Vec::new();
    let mut i: usize = 0;
    while i < reported.len()
        invariant
            i <= reported@.len(),
            lines@.len() == i,
            forall|j: int| 0 <= j < i ==> #[trigger] lines@[j]@ == target_chars(reported@[j]),
        decreases reported@.len() - i,
    {
        let line = format_target(&reported[i]);
        lines.push(line);
        i = i + 1;
    }
    lines
}

/// Render one diagnostic line for a delivery failure: `error: <message>`.
pub fn diagnostic_line(message: &str) -> (r: String)
    ensures
        r@ == "error: "@ + message@,
{
    let mut s = String::from_str("error: ");
    s.append(message);
    s
}

} // verus!
