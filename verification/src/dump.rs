//! Looking into a legacy file byte by byte: where an ASCII pattern occurs,
//! a hexadecimal dump, and the command line of the dump tool.
use crate::text::{chars_of, hex_padded, push_char, push_hex_padded, push_str, string_of_chars};
use vstd::prelude::*;

verus! {

/// `pat` occurs in `bytes` at offset `i`.
pub open spec fn occurs_at(bytes: Seq<u8>, pat: Seq<u8>, i: int) -> bool {
    0 <= i && i + pat.len() <= bytes.len() && bytes.subrange(i, i + pat.len()) == pat
}

/// The offsets below `n` where `pat` occurs, in increasing order.
pub open spec fn match_positions(bytes: Seq<u8>, pat: Seq<u8>, n: nat) -> Seq<usize>
    decreases n,
{
    if n == 0 {
        Seq::empty()
    } else {
        let prev = match_positions(bytes, pat, (n - 1) as nat);
        if occurs_at(bytes, pat, n - 1) {
            prev.push((n - 1) as usize)
        } else {
            prev
        }
    }
}

/// Whether `pat` occurs in `bytes` at `i`.
fn matches_at(bytes: &[u8], pat: &[u8], i: usize) -> (r: bool)
    requires
        i + pat@.len() <= bytes@.len(),
    ensures
        r == occurs_at(bytes@, pat@, i as int),
{
    let mut k: usize = 0;
    while k < pat.len()
        invariant
            k <= pat@.len(),
            i + pat@.len() <= bytes@.len(),
            bytes@.len() == bytes.len(),
            forall|j: int| 0 <= j < k ==> bytes@[i + j] == pat@[j],
        decreases pat@.len() - k,
    {
        if bytes[i + k] != pat[k] {
            proof {
                assert(bytes@.subrange(i as int, i + pat@.len())[k as int] != pat@[k as int]);
            }
            return false;
        }
        k = k + 1;
    }
    proof {
        assert(bytes@.subrange(i as int, i + pat@.len()) =~= pat@);
    }
    true
}

/// Every offset where a non-empty `pat` occurs in `bytes`, in increasing
/// order; none for an empty pattern or one longer than the bytes.
pub fn find_ascii_pattern(bytes: &[u8], pat: &[u8]) -> (r: Vec<usize>)
    ensures
        r@ == (if pat@.len() == 0 || pat@.len() > bytes@.len() {
            Seq::<usize>::empty()
        } else {
            match_positions(bytes@, pat@, (bytes@.len() - pat@.len() + 1) as nat)
        }),
{
    let mut out: Vec<usize> = Vec::new();
    if pat.len() == 0 || pat.len() > bytes.len() {
        return out;
    }
    let last = bytes.len() - pat.len();
    let mut i: usize = 0;
    while i <= last
        invariant
            last == bytes@.len() - pat@.len(),
            pat@.len() >= 1,
            bytes@.len() == bytes.len(),
            i <= last + 1,
            out@ == match_positions(bytes@, pat@, i as nat),
        decreases last + 1 - i,
    {
        if matches_at(bytes, pat, i) {
            out.push(i);
        }
        i = i + 1;
    }
    out
}

/// The bytes of a dump line: two hexadecimal digits and a space each.
pub open spec fn bytes_hex(chunk: Seq<u8>) -> Seq<char>
    decreases chunk.len(),
{
    if chunk.len() == 0 {
        Seq::empty()
    } else {
        bytes_hex(chunk.drop_last()) + hex_padded(chunk.last() as nat, 2) + seq![' ']
    }
}

/// Line `i` of the dump: the offset in eight hexadecimal digits, two
/// spaces, then the (up to) sixteen bytes from that offset.
pub open spec fn hexdump_line(bytes: Seq<u8>, i: nat) -> Seq<char> {
    let off: nat = i * 16;
    let end: int = if off + 16 <= bytes.len() { (off + 16) as int } else { bytes.len() as int };
    hex_padded(off, 8) + seq![' ', ' '] + bytes_hex(bytes.subrange(off as int, end))
}

/// The number of lines of the dump of `n` bytes.
pub open spec fn hexdump_line_count(n: nat) -> nat {
    (n + 15) / 16
}

/// The lines of a hexadecimal dump of `bytes`, sixteen bytes a line.
pub fn hexdump_lines(bytes: &[u8]) -> (r: Vec<String>)
    ensures
        r@.len() == hexdump_line_count(bytes@.len()),
        forall|i: int| 0 <= i < r@.len() ==> (#[trigger] r@[i])@ == hexdump_line(bytes@, i as nat),
{
    let mut out: Vec<String> = Vec::new();
    let n = bytes.len();
    let count = n / 16 + if n % 16 == 0 { 0 } else { 1 };
    proof {
        assert(count == hexdump_line_count(n as nat));
    }
    let mut i: usize = 0;
    while i < count
        invariant
            n == bytes@.len(),
            count == hexdump_line_count(n as nat),
            i <= count,
            out@.len() == i,
            forall|j: int| 0 <= j < out@.len() ==> (#[trigger] out@[j])@ == hexdump_line(bytes@, j as nat),
        decreases count - i,
    {
        proof {
            assert(i * 16 < n) by (nonlinear_arith)
                requires
                    i < count,
                    count == (n + 15) / 16,
            ;
        }
        let off = i * 16;
        let end = if n - off >= 16 { off + 16 } else { n };
        let mut line = String::new();
        push_hex_padded(&mut line, off as u64, 8);
        push_char(&mut line, ' ');
        push_char(&mut line, ' ');
        let ghost prefix = line@;
        let mut k: usize = off;
        while k < end
            invariant
                off <= k <= end <= n,
                n == bytes@.len(),
                line@ == prefix + bytes_hex(bytes@.subrange(off as int, k as int)),
            decreases end - k,
        {
            push_hex_padded(&mut line, bytes[k] as u64, 2);
            push_char(&mut line, ' ');
            proof {
                let c = bytes@.subrange(off as int, k + 1);
                assert(c.drop_last() == bytes@.subrange(off as int, k as int));
                assert(c.last() == bytes@[k as int]);
                assert(line@ == prefix + bytes_hex(c));
            }
            k = k + 1;
        }
        proof {
            assert(prefix == hex_padded(off as nat, 8) + seq![' ', ' ']) by {
                assert(Seq::<char>::empty() + hex_padded(off as nat, 8) == hex_padded(off as nat, 8));
            }
            assert(line@ == hexdump_line(bytes@, i as nat));
        }
        out.push(line);
        i = i + 1;
    }
    out
}

/// The value of a run of decimal digits.
pub open spec fn digits_value(s: Seq<char>) -> int
    decreases s.len(),
{
    if s.len() == 0 {
        0
    } else {
        digits_value(s.drop_last()) * 10 + (s.last() as int - 48)
    }
}

/// Every character is an ASCII digit.
pub open spec fn all_digits(s: Seq<char>) -> bool {
    forall|i: int| 0 <= i < s.len() ==> '0' <= #[trigger] s[i] <= '9'
}

/// std's parse of a `usize`: an optional `+`, then at least one decimal
/// digit and nothing else, with a value that fits.
pub open spec fn parsed_usize(s: Seq<char>) -> Option<usize> {
    let body = if s.len() > 0 && s[0] == '+' { s.drop_first() } else { s };
    if body.len() > 0 && all_digits(body) && digits_value(body) <= usize::MAX {
        Some(digits_value(body) as usize)
    } else {
        None
    }
}

/// Parses a `usize` as std's `str::parse` does.
pub fn parse_usize(s: &str) -> (r: Option<usize>)
    ensures
        r == parsed_usize(s@),
{
    let cs = chars_of(s);
    let start: usize = if cs.len() > 0 && cs[0] == '+' { 1 } else { 0 };
    let ghost body = if cs@.len() > 0 && cs@[0] == '+' { cs@.drop_first() } else { cs@ };
    proof {
        assert(body == cs@.subrange(start as int, cs@.len() as int));
    }
    if start >= cs.len() {
        return None;
    }
    let mut v: usize = 0;
    let mut k: usize = start;
    while k < cs.len()
        invariant
            start <= k <= cs@.len(),
            start < cs@.len(),
            cs@ == s@,
            body == (if cs@.len() > 0 && cs@[0] == '+' { cs@.drop_first() } else { cs@ }),
            body == cs@.subrange(start as int, cs@.len() as int),
            all_digits(cs@.subrange(start as int, k as int)),
            v == digits_value(cs@.subrange(start as int, k as int)),
        decreases cs@.len() - k,
    {
        let c = cs[k];
        let prefix = Ghost(cs@.subrange(start as int, k + 1));
        proof {
            assert(prefix@.drop_last() == cs@.subrange(start as int, k as int));
        }
        if !('0' <= c && c <= '9') {
            proof {
                assert(body[k - start] == c);
                assert(!all_digits(body));
            }
            return None;
        }
        let d = (c as u32 - 48) as usize;
        if v > (usize::MAX - d) / 10 {
            proof {
                assert(body.subrange(0, k - start + 1) =~= prefix@);
                assert(body.subrange(0, k - start) =~= cs@.subrange(start as int, k as int));
                assert(body[k - start] == c);
                lemma_digits_grow(body, (k - start) as nat);
                assert(digits_value(prefix@) > usize::MAX) by (nonlinear_arith)
                    requires
                        digits_value(prefix@) == v * 10 + d,
                        v > (usize::MAX - d) / 10,
                        0 <= d <= 9,
                ;
            }
            return None;
        }
        proof {
            assert(v * 10 + d <= usize::MAX) by (nonlinear_arith)
                requires
                    v <= (usize::MAX - d) / 10,
                    0 <= d <= 9,
            ;
        }
        v = v * 10 + d;
        k = k + 1;
    }
    Some(v)
}

/// The value of a digit run only grows as digits follow, and the run
/// stays all digits.
proof fn lemma_digits_grow(s: Seq<char>, k: nat)
    requires
        k < s.len(),
        all_digits(s.subrange(0, k as int)),
        '0' <= s[k as int] <= '9',
    ensures
        digits_value(s.subrange(0, k + 1int)) == digits_value(s.subrange(0, k as int)) * 10 + (s[k as int] as int - 48),
        digits_value(s.subrange(0, k as int)) >= 0,
        all_digits(s) ==> digits_value(s) >= digits_value(s.subrange(0, k + 1int)),
    decreases s.len() - k,
{
    assert(s.subrange(0, k + 1int).drop_last() == s.subrange(0, k as int));
    lemma_digits_nonneg(s.subrange(0, k as int));
    if all_digits(s) && k + 1 < s.len() {
        lemma_digits_grow(s, k + 1);
    } else if all_digits(s) {
        assert(s.subrange(0, k + 1int) == s);
    }
}

proof fn lemma_digits_nonneg(s: Seq<char>)
    requires
        all_digits(s),
    ensures
        digits_value(s) >= 0,
    decreases s.len(),
{
    if s.len() > 0 {
        assert(all_digits(s.drop_last())) by {
            assert forall|i: int| 0 <= i < s.drop_last().len() implies '0' <= #[trigger] s.drop_last()[i] <= '9' by {
                assert(s.drop_last()[i] == s[i]);
            }
        }
        lemma_digits_nonneg(s.drop_last());
    }
}

/// Whether two strings hold the same characters.
pub fn same_text(a: &str, b: &str) -> (r: bool)
    ensures
        r == (a@ == b@),
{
    let x = chars_of(a);
    let y = chars_of(b);
    if x.len() != y.len() {
        return false;
    }
    let mut i: usize = 0;
    while i < x.len()
        invariant
            i <= x@.len(),
            x@ == a@,
            y@ == b@,
            x@.len() == y@.len(),
            forall|k: int| 0 <= k < i ==> x@[k] == y@[k],
        decreases x@.len() - i,
    {
        if x[i] != y[i] {
            return false;
        }
        i = i + 1;
    }
    proof {
        assert(x@ =~= y@);
    }
    true
}

/// The flags the dump tool was given: a hexdump length, whether to list
/// strings and float pairs, and a pattern to search for.
pub type DumpFlags = (Option<usize>, bool, bool, Option<Seq<char>>);

/// Reads the flags from `args[i]` on, after those already read into `acc`.
pub open spec fn scan_dump_flags(args: Seq<Seq<char>>, i: nat, acc: DumpFlags) -> Result<DumpFlags, Seq<char>>
    decreases args.len() - i,
{
    if i >= args.len() {
        Ok(acc)
    } else {
        let a = args[i as int];
        if a == "--hexdump"@ {
            if i + 1 >= args.len() {
                Err("Для --hexdump нужно число байт"@)
            } else {
                match parsed_usize(args[i + 1int]) {
                    Some(n) => scan_dump_flags(args, i + 2, (Some(n), acc.1, acc.2, acc.3)),
                    None => Err("Некорректное значение --hexdump"@),
                }
            }
        } else if a == "--strings"@ {
            scan_dump_flags(args, i + 1, (acc.0, true, acc.2, acc.3))
        } else if a == "--floats"@ {
            scan_dump_flags(args, i + 1, (acc.0, acc.1, true, acc.3))
        } else if a == "--search"@ {
            if i + 1 >= args.len() {
                Err("Для --search нужна строка"@)
            } else {
                scan_dump_flags(args, i + 2, (acc.0, acc.1, acc.2, Some(args[i + 1int])))
            }
        } else {
            Err("Неизвестный флаг: "@ + a)
        }
    }
}

/// The usage line of the dump tool.
pub open spec fn dump_usage() -> Seq<char> {
    "Использование: gpn_dump <file.gpn> [--hexdump N] [--strings] [--floats] [--search \"pattern\"]"@
}

/// The dump tool's command line (program name first): the file, then the
/// flags; the usage line when no file is named.
pub open spec fn dump_args(args: Seq<Seq<char>>) -> Result<(Seq<char>, DumpFlags), Seq<char>> {
    if args.len() < 2 {
        Err(dump_usage())
    } else {
        match scan_dump_flags(args, 2, (None, false, false, None)) {
            Ok(f) => Ok((args[1], f)),
            Err(e) => Err(e),
        }
    }
}

/// What the dump tool is asked to do.
pub struct DumpOptions {
    pub file: String,
    pub hexdump: Option<usize>,
    pub show_strings: bool,
    pub show_floats: bool,
    pub search: Option<String>,
}

impl DumpOptions {
    /// The file and the flags, as plain values.
    pub open spec fn flags(&self) -> (Seq<char>, DumpFlags) {
        (
            self.file@,
            (
                self.hexdump,
                self.show_strings,
                self.show_floats,
                opt_text(self.search),
            ),
        )
    }
}

/// The characters of an optional string.
pub open spec fn opt_text(o: Option<String>) -> Option<Seq<char>> {
    match o {
        Some(s) => Some(s@),
        None => None,
    }
}

/// The views of a list of strings.
pub open spec fn texts(args: Seq<String>) -> Seq<Seq<char>> {
    args.map_values(|s: String| s@)
}

/// Reads the dump tool's command line.
pub fn parse_dump_args(args: &Vec<String>) -> (r: Result<DumpOptions, String>)
    ensures
        match (r, dump_args(texts(args@))) {
            (Ok(o), Ok(want)) => o.flags() == want,
            (Err(e), Err(want)) => e@ == want,
            _ => false,
        },
{
    let ghost a = texts(args@);
    if args.len() < 2 {
        return Err(string_of_chars(&chars_of("Использование: gpn_dump <file.gpn> [--hexdump N] [--strings] [--floats] [--search \"pattern\"]")));
    }
    let file = args[1].clone();
    let mut hexdump: Option<usize> = None;
    let mut show_strings = false;
    let mut show_floats = false;
    let mut search: Option<String> = None;
    let mut i: usize = 2;
    while i < args.len()
        invariant
            a == texts(args@),
            2 <= i,
            file@ == a[1],
            args@.len() >= 2,
            scan_dump_flags(a, 2, (None, false, false, None)) == scan_dump_flags(
                a,
                i as nat,
                (hexdump, show_strings, show_floats, opt_text(search)),
            ),
        decreases args@.len() - i,
    {
        proof {
            assert(a[i as int] == args@[i as int]@);
        }
        let arg = args[i].as_str();
        if same_text(arg, "--hexdump") {
            if i + 1 >= args.len() {
                return Err(string_of_chars(&chars_of("Для --hexdump нужно число байт")));
            }
            proof {
                assert(a[i + 1] == args@[i + 1]@);
            }
            match parse_usize(args[i + 1].as_str()) {
                Some(n) => {
                    hexdump = Some(n);
                },
                None => {
                    return Err(string_of_chars(&chars_of("Некорректное значение --hexdump")));
                },
            }
            i = i + 2;
        } else if same_text(arg, "--strings") {
            show_strings = true;
            i = i + 1;
        } else if same_text(arg, "--floats") {
            show_floats = true;
            i = i + 1;
        } else if same_text(arg, "--search") {
            if i + 1 >= args.len() {
                return Err(string_of_chars(&chars_of("Для --search нужна строка")));
            }
            proof {
                assert(a[i + 1] == args@[i + 1]@);
            }
            search = Some(args[i + 1].clone());
            i = i + 2;
        } else {
            let mut msg = string_of_chars(&chars_of("Неизвестный флаг: "));
            push_str(&mut msg, arg);
            return Err(msg);
        }
    }
    Ok(DumpOptions { file, hexdump, show_strings, show_floats, search })
}

} // verus!
