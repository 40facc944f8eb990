//! Parsing of process memory maps, one line of `/proc/<pid>/maps` at a time,
//! and the filter that keeps the entries relevant to symbolization.

use crate::Addr;
use vstd::prelude::*;
use vstd::string::*;

verus! {

/// The process whose maps are being read.
#[derive(Clone, Copy, Debug, PartialEq, Eq)]
pub enum Pid {
    /// The calling process itself (`/proc/self`).
    Slf,
    /// The process with the given id.
    Pid(u32),
}

/// The file backing a maps entry, in two forms.
#[derive(Debug, PartialEq, Eq, Hash)]
pub struct EntryPath {
    /// The backing file reached through the `/proc/<pid>/map_files/`
    /// symbolic link of the entry; meaningful on the local system only.
    pub maps_file: String,
    /// The path as written in the maps line, without a ` (deleted)` suffix.
    pub symbolic_path: String,
}

/// The trailing "pathname" field of a maps line.
#[derive(Debug, PartialEq)]
pub enum PathName {
    /// A real file (the field starts with `/`).
    Path(EntryPath),
    /// A pseudo-region label such as `[heap]` or `anon_inode:bpf-map`.
    Component(String),
}

/// One line of a process's memory map.
#[derive(Debug)]
pub struct MapsEntry {
    /// The virtual address range covered by this entry.
    pub range: core::ops::Range<Addr>,
    /// The `rwxp` field as a bit mask, the first character in bit 3.
    pub mode: u8,
    /// The offset into the backing file at which the mapping begins.
    pub offset: u64,
    pub path_name: Option<PathName>,
}

/// A maps entry that is executable and backed by a file.
#[derive(Debug)]
pub struct PathMapsEntry {
    /// The virtual address range covered by this entry.
    pub range: core::ops::Range<Addr>,
    pub _mode: u8,
    pub offset: u64,
    pub path: EntryPath,
}

/// What is wrong with a maps line.
#[derive(Clone, Copy, Debug, PartialEq, Eq)]
pub enum MapsErrorKind {
    MissingAddressRange,
    MissingPermissions,
    MissingOffset,
    MissingDevice,
    MalformedAddressRange,
    MalformedStartAddress,
    MalformedEndAddress,
    MalformedOffset,
}

/// A maps line that could not be parsed, with the line itself.
#[derive(Debug)]
pub struct MapsError {
    pub kind: MapsErrorKind,
    pub line: String,
}

impl PathName {
    /// The file paths, for an entry backed by a file.
    pub fn as_path(&self) -> (r: Option<&EntryPath>)
        ensures
            match self {
                PathName::Path(p) => r == Some(p),
                PathName::Component(_) => r is None,
            },
    {
        match self {
            PathName::Path(path) => Some(path),
            _ => None,
        }
    }

    /// The label, for a pseudo-region.
    pub fn as_component(&self) -> (r: Option<&str>)
        ensures
            match self {
                PathName::Path(_) => r is None,
                PathName::Component(c) => r is Some && r->0@ == c@,
            },
    {
        match self {
            PathName::Component(comp) => Some(comp.as_str()),
            _ => None,
        }
    }
}

/// `char::is_ascii_whitespace`: the separator between the fields of a line.
pub open spec fn is_separator(c: char) -> bool {
    c == ' ' || c == '\t' || c == '\n' || c == '\x0C' || c == '\r'
}

/// `char::is_whitespace`: the Unicode `White_Space` characters, which
/// trimming removes.
pub open spec fn is_white_space(c: char) -> bool {
    ||| ('\t' <= c && c <= '\r')
    ||| c == ' '
    ||| c == '\u{85}'
    ||| c == '\u{A0}'
    ||| c == '\u{1680}'
    ||| ('\u{2000}' <= c && c <= '\u{200A}')
    ||| c == '\u{2028}'
    ||| c == '\u{2029}'
    ||| c == '\u{202F}'
    ||| c == '\u{205F}'
    ||| c == '\u{3000}'
}

/// The index of the first separator in `s`, or its length if it has none.
pub open spec fn first_separator(s: Seq<char>) -> nat
    decreases s.len(),
{
    if s.len() == 0 {
        0
    } else if is_separator(s[0]) {
        0
    } else {
        1 + first_separator(s.drop_first())
    }
}

/// The index of the first `c` in `s`, or its length if it has none.
pub open spec fn first_char(s: Seq<char>, c: char) -> nat
    decreases s.len(),
{
    if s.len() == 0 {
        0
    } else if s[0] == c {
        0
    } else {
        1 + first_char(s.drop_first(), c)
    }
}

/// `str::split_once` at the first separator: the text before it and after it.
pub open spec fn split_field(s: Seq<char>) -> Option<(Seq<char>, Seq<char>)> {
    let i = first_separator(s);
    if i < s.len() {
        Some((s.take(i as int), s.skip(i + 1int)))
    } else {
        None
    }
}

/// `s` without leading white space.
pub open spec fn trim_start(s: Seq<char>) -> Seq<char>
    decreases s.len(),
{
    if s.len() > 0 && is_white_space(s[0]) {
        trim_start(s.drop_first())
    } else {
        s
    }
}

/// `s` without trailing white space.
pub open spec fn trim_end(s: Seq<char>) -> Seq<char>
    decreases s.len(),
{
    if s.len() > 0 && is_white_space(s.last()) {
        trim_end(s.drop_last())
    } else {
        s
    }
}

/// `str::trim`: `s` without leading and trailing white space.
pub open spec fn trim(s: Seq<char>) -> Seq<char> {
    trim_end(trim_start(s))
}

pub open spec fn is_hex_digit(c: char) -> bool {
    ('0' <= c && c <= '9') || ('a' <= c && c <= 'f') || ('A' <= c && c <= 'F')
}

pub open spec fn hex_digit_value(c: char) -> nat {
    if '0' <= c && c <= '9' {
        (c as int - '0' as int) as nat
    } else if 'a' <= c && c <= 'f' {
        (c as int - 'a' as int + 10) as nat
    } else {
        (c as int - 'A' as int + 10) as nat
    }
}

/// The number that the hexadecimal digits `d` denote.
pub open spec fn hex_number(d: Seq<char>) -> nat
    decreases d.len(),
{
    if d.len() == 0 {
        0
    } else {
        16 * hex_number(d.drop_last()) + hex_digit_value(d.last())
    }
}

/// The text of a hexadecimal number without its optional `+` sign.
pub open spec fn unsigned_digits(s: Seq<char>) -> Seq<char> {
    if s.len() > 0 && s[0] == '+' {
        s.drop_first()
    } else {
        s
    }
}

/// The value of the hexadecimal digits `d`: at least one digit, all digits
/// valid, the number fitting in 64 bits.
pub open spec fn hex_digits_value(d: Seq<char>) -> Option<u64> {
    if d.len() > 0 && (forall|k: int| 0 <= k < d.len() ==> is_hex_digit(#[trigger] d[k]))
        && hex_number(d) <= u64::MAX {
        Some(hex_number(d) as u64)
    } else {
        None
    }
}

/// `u64::from_str_radix(s, 16)`: an optional `+`, then at least one
/// hexadecimal digit, denoting a number that fits in 64 bits.
pub open spec fn hex_value(s: Seq<char>) -> Option<u64> {
    hex_digits_value(unsigned_digits(s))
}

/// The permission field as a bit mask: one bit per character, set unless
/// the character is `-`, the first character most significant, kept to
/// eight bits.
pub open spec fn mode_mask(s: Seq<char>) -> nat
    decreases s.len(),
{
    if s.len() == 0 {
        0
    } else {
        (2 * mode_mask(s.drop_last()) + if s.last() == '-' {
            0nat
        } else {
            1nat
        }) % 256
    }
}

pub open spec fn decimal_digit(d: nat) -> char {
    (d + '0' as nat) as char
}

/// The decimal digits of `n`.
pub open spec fn decimal(n: nat) -> Seq<char>
    decreases n,
{
    if n < 10 {
        seq![decimal_digit(n)]
    } else {
        decimal(n / 10).push(decimal_digit(n % 10))
    }
}

/// The `/proc` directory name of a process.
pub open spec fn pid_text(pid: Pid) -> Seq<char> {
    match pid {
        Pid::Slf => seq!['s', 'e', 'l', 'f'],
        Pid::Pid(n) => decimal(n as nat),
    }
}

/// The link to the backing file of the entry whose address range is
/// written `range_text`: `/proc/<pid>/map_files/<range_text>`.
pub open spec fn maps_file_path(pid: Pid, range_text: Seq<char>) -> Seq<char> {
    seq!['/', 'p', 'r', 'o', 'c', '/'] + pid_text(pid) + seq![
        '/',
        'm',
        'a',
        'p',
        '_',
        'f',
        'i',
        'l',
        'e',
        's',
        '/',
    ] + range_text
}

pub open spec fn deleted_suffix() -> Seq<char> {
    seq![' ', '(', 'd', 'e', 'l', 'e', 't', 'e', 'd', ')']
}

/// The path with a ` (deleted)` suffix removed.
pub open spec fn strip_deleted(p: Seq<char>) -> Seq<char> {
    if p.len() >= 10 && p.skip(p.len() - 10) == deleted_suffix() {
        p.take(p.len() - 10)
    } else {
        p
    }
}

/// The start and end of the address range written `range_text`.
pub open spec fn range_bounds(range_text: Seq<char>) -> Result<(u64, u64), MapsErrorKind> {
    let dash = first_char(range_text, '-');
    if dash >= range_text.len() {
        Err(MapsErrorKind::MalformedAddressRange)
    } else {
        match hex_value(range_text.take(dash as int)) {
            None => Err(MapsErrorKind::MalformedStartAddress),
            Some(start) => match hex_value(range_text.skip(dash + 1int)) {
                None => Err(MapsErrorKind::MalformedEndAddress),
                Some(end) => Ok((start, end)),
            },
        }
    }
}

/// The trimmed path field of the text that follows the offset of a maps
/// line: a device and an inode field come first, and the path may be absent.
pub open spec fn path_field(rest: Seq<char>) -> Result<Seq<char>, MapsErrorKind> {
    match split_field(rest) {
        None => Err(MapsErrorKind::MissingDevice),
        Some((_device, rest)) => Ok(
            match split_field(rest) {
                Some((_inode, p)) => trim(p),
                None => Seq::empty(),
            },
        ),
    }
}

/// The mode, the offset and the trimmed path field of the text that follows
/// the address range of a maps line.
pub open spec fn range_sequel(rest: Seq<char>) -> Result<(u8, u64, Seq<char>), MapsErrorKind> {
    match split_field(rest) {
        None => Err(MapsErrorKind::MissingPermissions),
        Some((mode_text, rest)) => match split_field(rest) {
            None => Err(MapsErrorKind::MissingOffset),
            Some((offset_text, rest)) => match hex_value(offset_text) {
                None => Err(MapsErrorKind::MalformedOffset),
                Some(offset) => match path_field(rest) {
                    Err(kind) => Err(kind),
                    Ok(path) => Ok((mode_mask(mode_text) as u8, offset, path)),
                },
            },
        },
    }
}

/// The fields of a maps line: the address range as written, start, end,
/// mode, offset and the trimmed path field; or what is wrong with it.
pub open spec fn line_fields(line: Seq<char>) -> Result<
    (Seq<char>, u64, u64, u8, u64, Seq<char>),
    MapsErrorKind,
> {
    match split_field(line) {
        None => Err(MapsErrorKind::MissingAddressRange),
        Some((range_text, rest)) => match range_bounds(range_text) {
            Err(kind) => Err(kind),
            Ok((start, end)) => match range_sequel(rest) {
                Err(kind) => Err(kind),
                Ok((mode, offset, path)) => Ok((range_text, start, end, mode, offset, path)),
            },
        },
    }
}

/// `p` classifies the path field `path` of an entry whose address range is
/// written `range_text`.
pub open spec fn path_name_of(
    p: Option<PathName>,
    path: Seq<char>,
    range_text: Seq<char>,
    pid: Pid,
) -> bool {
    if path.len() == 0 {
        p is None
    } else if path[0] == '/' {
        match p {
            Some(PathName::Path(e)) => e.maps_file@ == maps_file_path(pid, range_text)
                && e.symbolic_path@ == strip_deleted(path),
            _ => false,
        }
    } else {
        match p {
            Some(PathName::Component(c)) => c@ == path,
            _ => false,
        }
    }
}

/// `r` is the outcome of parsing the maps line `line` of process `pid`.
pub open spec fn parsed_as(r: Result<MapsEntry, MapsError>, line: Seq<char>, pid: Pid) -> bool {
    match line_fields(line) {
        Ok((range_text, start, end, mode, offset, path)) => match r {
            Ok(e) => e.range.start == start && e.range.end == end && e.mode == mode && e.offset
                == offset && path_name_of(e.path_name, path, range_text, pid),
            Err(_) => false,
        },
        Err(kind) => match r {
            Ok(_) => false,
            Err(e) => e.kind == kind && e.line@ == line,
        },
    }
}

/// The characters of `s`, one by one.
fn chars_of(s: &str) -> (r: Vec<char>)
    ensures
        r@ == s@,
{
    let mut r: Vec<char> = Vec::new();
    for c in it: s.chars()
        invariant
            r@ == it.seq().take(it.index() as int),
    {
        r.push(c);
    }
    r
}

fn is_separator_char(c: char) -> (r: bool)
    ensures
        r == is_separator(c),
{
    c == ' ' || c == '\t' || c == '\n' || c == '\x0C' || c == '\r'
}

fn is_white_space_char(c: char) -> (r: bool)
    ensures
        r == is_white_space(c),
{
    ('\t' <= c && c <= '\r') || c == ' ' || c == '\u{85}' || c == '\u{A0}' || c == '\u{1680}'
        || ('\u{2000}' <= c && c <= '\u{200A}') || c == '\u{2028}' || c == '\u{2029}' || c
        == '\u{202F}' || c == '\u{205F}' || c == '\u{3000}'
}

/// The index of the first separator in `chars[lo..hi]`, or `hi`.
fn find_separator(chars: &Vec<char>, lo: usize, hi: usize) -> (r: usize)
    requires
        lo <= hi <= chars@.len(),
    ensures
        lo <= r <= hi,
        r == lo + first_separator(chars@.subrange(lo as int, hi as int)),
{
    let mut i = lo;
    while i < hi && !is_separator_char(chars[i])
        invariant
            lo <= i <= hi <= chars@.len(),
            first_separator(chars@.subrange(lo as int, hi as int)) == (i - lo) + first_separator(
                chars@.subrange(i as int, hi as int),
            ),
        decreases hi - i,
    {
        assert(chars@.subrange(i as int, hi as int).drop_first() =~= chars@.subrange(
            i + 1,
            hi as int,
        ));
        i += 1;
    }
    if i < hi {
        assert(chars@.subrange(i as int, hi as int)[0] == chars@[i as int]);
    }
    i
}

/// The index of the first `c` in `chars[lo..hi]`, or `hi`.
fn find_char(chars: &Vec<char>, lo: usize, hi: usize, c: char) -> (r: usize)
    requires
        lo <= hi <= chars@.len(),
    ensures
        lo <= r <= hi,
        r == lo + first_char(chars@.subrange(lo as int, hi as int), c),
{
    let mut i = lo;
    while i < hi && chars[i] != c
        invariant
            lo <= i <= hi <= chars@.len(),
            first_char(chars@.subrange(lo as int, hi as int), c) == (i - lo) + first_char(
                chars@.subrange(i as int, hi as int),
                c,
            ),
        decreases hi - i,
    {
        assert(chars@.subrange(i as int, hi as int).drop_first() =~= chars@.subrange(
            i + 1,
            hi as int,
        ));
        i += 1;
    }
    if i < hi {
        assert(chars@.subrange(i as int, hi as int)[0] == chars@[i as int]);
    }
    i
}

fn hex_digit(c: char) -> (r: Option<u64>)
    ensures
        is_hex_digit(c) ==> r == Some(hex_digit_value(c) as u64),
        !is_hex_digit(c) ==> r is None,
        r is Some ==> r->0 < 16,
{
    if '0' <= c && c <= '9' {
        Some((c as u32 - '0' as u32) as u64)
    } else if 'a' <= c && c <= 'f' {
        Some((c as u32 - 'a' as u32 + 10) as u64)
    } else if 'A' <= c && c <= 'F' {
        Some((c as u32 - 'A' as u32 + 10) as u64)
    } else {
        None
    }
}

/// `chars[lo..hi]` read as a hexadecimal number.
fn parse_hex(chars: &Vec<char>, lo: usize, hi: usize) -> (r: Option<u64>)
    requires
        lo <= hi <= chars@.len(),
    ensures
        r == hex_value(chars@.subrange(lo as int, hi as int)),
{
    let ghost s = chars@.subrange(lo as int, hi as int);
    let mut start = lo;
    if lo < hi && chars[lo] == '+' {
        start = lo + 1;
        assert(s.drop_first() =~= chars@.subrange(start as int, hi as int));
    } else {
        assert(s =~= chars@.subrange(start as int, hi as int));
    }
    let ghost d = unsigned_digits(s);
    assert(d =~= chars@.subrange(start as int, hi as int));
    if start == hi {
        return None;
    }
    let mut acc: u64 = 0;
    let mut overflow = false;
    let mut i = start;
    assert(chars@.subrange(start as int, start as int).len() == 0);
    while i < hi
        invariant
            lo <= start <= i <= hi <= chars@.len(),
            d == chars@.subrange(start as int, hi as int),
            s == chars@.subrange(lo as int, hi as int),
            d == unsigned_digits(s),
            forall|k: int| start <= k < i ==> is_hex_digit(#[trigger] chars@[k]),
            !overflow ==> acc == hex_number(chars@.subrange(start as int, i as int)),
            overflow ==> hex_number(chars@.subrange(start as int, i as int)) > u64::MAX,
        decreases hi - i,
    {
        let v = match hex_digit(chars[i]) {
            Some(v) => v,
            None => {
                assert(!is_hex_digit(d[i - start]));
                return None;
            },
        };
        let ghost prev = chars@.subrange(start as int, i as int);
        let ghost next = chars@.subrange(start as int, i + 1);
        assert(next.drop_last() =~= prev);
        assert(next.last() == chars@[i as int]);
        assert(hex_number(next) == 16 * hex_number(prev) + v);
        if !overflow {
            if acc > (u64::MAX - v) / 16 {
                assert(16 * acc + v > u64::MAX) by (nonlinear_arith)
                    requires
                        acc > (u64::MAX - v) / 16,
                        v < 16,
                ;
                overflow = true;
            } else {
                assert(16 * acc + v <= u64::MAX) by (nonlinear_arith)
                    requires
                        acc <= (u64::MAX - v) / 16,
                        v < 16,
                ;
                acc = acc * 16 + v;
            }
        }
        i += 1;
    }
    assert(chars@.subrange(start as int, i as int) =~= d);
    if overflow {
        None
    } else {
        Some(acc)
    }
}

/// The permission mask of `chars[lo..hi]`.
fn mode_of(chars: &Vec<char>, lo: usize, hi: usize) -> (r: u8)
    requires
        lo <= hi <= chars@.len(),
    ensures
        r as nat == mode_mask(chars@.subrange(lo as int, hi as int)),
{
    let mut mode: u8 = 0;
    let mut i = lo;
    assert(chars@.subrange(lo as int, lo as int).len() == 0);
    while i < hi
        invariant
            lo <= i <= hi <= chars@.len(),
            mode as nat == mode_mask(chars@.subrange(lo as int, i as int)),
        decreases hi - i,
    {
        let ghost next = chars@.subrange(lo as int, i + 1);
        assert(next.drop_last() =~= chars@.subrange(lo as int, i as int));
        assert(next.last() == chars@[i as int]);
        let bit: u8 = if chars[i] == '-' {
            0
        } else {
            1
        };
        assert((mode % 128) * 2 + bit == (2 * mode + bit) % 256) by (nonlinear_arith)
            requires
                bit <= 1,
                mode < 256,
        ;
        mode = (mode % 128) * 2 + bit;
        i += 1;
    }
    mode
}

/// The bounds of `chars[lo..hi]` without its leading and trailing white
/// space.
fn trim_bounds(chars: &Vec<char>, lo: usize, hi: usize) -> (r: (usize, usize))
    requires
        lo <= hi <= chars@.len(),
    ensures
        lo <= r.0 <= r.1 <= hi,
        chars@.subrange(r.0 as int, r.1 as int) == trim(chars@.subrange(lo as int, hi as int)),
{
    let mut a = lo;
    while a < hi && is_white_space_char(chars[a])
        invariant
            lo <= a <= hi <= chars@.len(),
            trim_start(chars@.subrange(lo as int, hi as int)) == trim_start(
                chars@.subrange(a as int, hi as int),
            ),
        decreases hi - a,
    {
        assert(chars@.subrange(a as int, hi as int).drop_first() =~= chars@.subrange(
            a + 1,
            hi as int,
        ));
        a += 1;
    }
    if a < hi {
        assert(chars@.subrange(a as int, hi as int)[0] == chars@[a as int]);
    }
    let mut b = hi;
    while b > a && is_white_space_char(chars[b - 1])
        invariant
            lo <= a <= b <= hi <= chars@.len(),
            trim_end(chars@.subrange(a as int, hi as int)) == trim_end(
                chars@.subrange(a as int, b as int),
            ),
        decreases b - a,
    {
        assert(chars@.subrange(a as int, b as int).drop_last() =~= chars@.subrange(
            a as int,
            b - 1,
        ));
        b -= 1;
    }
    if b > a {
        assert(chars@.subrange(a as int, b as int).last() == chars@[b - 1]);
    }
    (a, b)
}

/// Whether `chars[lo..hi]` ends with ` (deleted)`.
fn ends_with_deleted(chars: &Vec<char>, lo: usize, hi: usize) -> (r: bool)
    requires
        lo <= hi <= chars@.len(),
    ensures
        r == (hi - lo >= 10 && chars@.subrange(hi - 10, hi as int) == deleted_suffix()),
{
    if hi - lo < 10 {
        return false;
    }
    let e = hi - 10;
    let r = chars[e] == ' ' && chars[e + 1] == '(' && chars[e + 2] == 'd' && chars[e + 3] == 'e'
        && chars[e + 4] == 'l' && chars[e + 5] == 'e' && chars[e + 6] == 't' && chars[e + 7]
        == 'e' && chars[e + 8] == 'd' && chars[e + 9] == ')';
    if r {
        assert(chars@.subrange(e as int, hi as int) =~= deleted_suffix());
    } else {
        assert(chars@.subrange(e as int, hi as int) != deleted_suffix()) by {
            if chars@.subrange(e as int, hi as int) == deleted_suffix() {
                let t = chars@.subrange(e as int, hi as int);
                assert(t[0] == ' ' && t[1] == '(' && t[2] == 'd' && t[3] == 'e' && t[4] == 'l');
                assert(t[5] == 'e' && t[6] == 't' && t[7] == 'e' && t[8] == 'd' && t[9] == ')');
            }
        }
    }
    r
}

fn digit_text(d: u32) -> (r: &'static str)
    requires
        d < 10,
    ensures
        r@ == seq![decimal_digit(d as nat)],
{
    proof {
        reveal_strlit("0");
        reveal_strlit("1");
        reveal_strlit("2");
        reveal_strlit("3");
        reveal_strlit("4");
        reveal_strlit("5");
        reveal_strlit("6");
        reveal_strlit("7");
        reveal_strlit("8");
        reveal_strlit("9");
    }
    let r = match d {
        0 => "0",
        1 => "1",
        2 => "2",
        3 => "3",
        4 => "4",
        5 => "5",
        6 => "6",
        7 => "7",
        8 => "8",
        _ => "9",
    };
    assert(r@ =~= seq![decimal_digit(d as nat)]);
    r
}

/// Appends the decimal digits of `n` to `s`.
fn push_decimal(s: &mut String, n: u32)
    ensures
        final(s)@ == old(s)@ + decimal(n as nat),
    decreases n,
{
    if n >= 10 {
        push_decimal(s, n / 10);
    }
    s.append(digit_text(n % 10));
    assert(final(s)@ =~= old(s)@ + decimal(n as nat));
}

/// `/proc/<pid>/map_files/<range_text>`.
fn maps_file_text(pid: Pid, range_text: &str) -> (r: String)
    ensures
        r@ == maps_file_path(pid, range_text@),
{
    proof {
        reveal_strlit("/proc/");
        reveal_strlit("self");
        reveal_strlit("/map_files/");
    }
    let mut s = String::from_str("/proc/");
    assert(s@ =~= seq!['/', 'p', 'r', 'o', 'c', '/']);
    match pid {
        Pid::Slf => {
            s.append("self");
            assert("self"@ =~= seq!['s', 'e', 'l', 'f']);
        },
        Pid::Pid(n) => push_decimal(&mut s, n),
    }
    assert(s@ =~= seq!['/', 'p', 'r', 'o', 'c', '/'] + pid_text(pid));
    s.append("/map_files/");
    assert("/map_files/"@ =~= seq!['/', 'm', 'a', 'p', '_', 'f', 'i', 'l', 'e', 's', '/']);
    s.append(range_text);
    assert(s@ =~= maps_file_path(pid, range_text@));
    s
}

fn line_error(kind: MapsErrorKind, line: &str) -> (r: MapsError)
    ensures
        r.kind == kind,
        r.line@ == line@,
{
    MapsError { kind, line: String::from_str(line) }
}

/// The path field `line[ps..pe]` of an entry whose address range is written
/// `line[..a]`, classified.
fn classify_path(line: &str, chars: &Vec<char>, ps: usize, pe: usize, a: usize, pid: Pid) -> (r:
    Option<PathName>)
    requires
        chars@ == line@,
        ps <= pe <= chars@.len(),
        a <= chars@.len(),
    ensures
        path_name_of(r, chars@.subrange(ps as int, pe as int), chars@.subrange(0, a as int), pid),
{
    let ghost path = chars@.subrange(ps as int, pe as int);
    if ps == pe {
        None
    } else if chars[ps] == '/' {
        let deleted = ends_with_deleted(chars, ps, pe);
        let sym_end = if deleted {
            pe - 10
        } else {
            pe
        };
        if pe - ps >= 10 {
            assert(path.skip(path.len() - 10) =~= chars@.subrange(pe - 10, pe as int));
        }
        assert(chars@.subrange(ps as int, sym_end as int) =~= strip_deleted(path));
        let symbolic_path = String::from_str(line.substring_char(ps, sym_end));
        let maps_file = maps_file_text(pid, line.substring_char(0, a));
        Some(PathName::Path(EntryPath { maps_file, symbolic_path }))
    } else {
        Some(PathName::Component(String::from_str(line.substring_char(ps, pe))))
    }
}

/// The bounds of the address range written `chars[..a]`.
fn parse_range(chars: &Vec<char>, a: usize) -> (r: Result<(u64, u64), MapsErrorKind>)
    requires
        a <= chars@.len(),
    ensures
        r == range_bounds(chars@.subrange(0, a as int)),
{
    let ghost range_text = chars@.subrange(0, a as int);
    let dash = find_char(chars, 0, a, '-');
    if dash == a {
        return Err(MapsErrorKind::MalformedAddressRange);
    }
    assert(range_text.take(dash as int) =~= chars@.subrange(0, dash as int));
    assert(range_text.skip(dash + 1) =~= chars@.subrange(dash + 1, a as int));
    let start = match parse_hex(chars, 0, dash) {
        Some(v) => v,
        None => {
            return Err(MapsErrorKind::MalformedStartAddress);
        },
    };
    let end = match parse_hex(chars, dash + 1, a) {
        Some(v) => v,
        None => {
            return Err(MapsErrorKind::MalformedEndAddress);
        },
    };
    Ok((start, end))
}

/// The bounds of the trimmed path field of `chars[lo..]`, the text that
/// follows the offset.
fn parse_path_field(chars: &Vec<char>, lo: usize) -> (r: Result<(usize, usize), MapsErrorKind>)
    requires
        lo <= chars@.len(),
    ensures
        match r {
            Ok((ps, pe)) => ps <= pe <= chars@.len() && path_field(
                chars@.subrange(lo as int, chars@.len() as int),
            ) == Ok::<Seq<char>, MapsErrorKind>(chars@.subrange(ps as int, pe as int)),
            Err(kind) => path_field(chars@.subrange(lo as int, chars@.len() as int)) == Err::<
                Seq<char>,
                MapsErrorKind,
            >(kind),
        },
{
    let n = chars.len();
    let ghost rest3 = chars@.subrange(lo as int, n as int);
    let d = find_separator(chars, lo, n);
    if d == n {
        return Err(MapsErrorKind::MissingDevice);
    }
    let ghost rest4 = chars@.subrange(d + 1, n as int);
    assert(rest3.skip(d - lo + 1) =~= rest4);
    let i = find_separator(chars, d + 1, n);
    let (ps, pe) = if i < n {
        assert(rest4.skip(i - d) =~= chars@.subrange(i + 1, n as int));
        trim_bounds(chars, i + 1, n)
    } else {
        (n, n)
    };
    assert(chars@.subrange(ps as int, pe as int) =~= match split_field(rest4) {
        Some((_inode, p)) => trim(p),
        None => Seq::<char>::empty(),
    });
    Ok((ps, pe))
}

/// Mode, offset and the bounds of the trimmed path field of `chars[lo..]`,
/// the text that follows the address range.
fn parse_sequel(chars: &Vec<char>, lo: usize) -> (r: Result<(u8, u64, usize, usize), MapsErrorKind>)
    requires
        lo <= chars@.len(),
    ensures
        match r {
            Ok((mode, offset, ps, pe)) => ps <= pe <= chars@.len() && range_sequel(
                chars@.subrange(lo as int, chars@.len() as int),
            ) == Ok::<(u8, u64, Seq<char>), MapsErrorKind>(
                (mode, offset, chars@.subrange(ps as int, pe as int)),
            ),
            Err(kind) => range_sequel(chars@.subrange(lo as int, chars@.len() as int)) == Err::<
                (u8, u64, Seq<char>),
                MapsErrorKind,
            >(kind),
        },
{
    let n = chars.len();
    let ghost rest1 = chars@.subrange(lo as int, n as int);
    let m = find_separator(chars, lo, n);
    if m == n {
        return Err(MapsErrorKind::MissingPermissions);
    }
    let ghost rest2 = chars@.subrange(m + 1, n as int);
    assert(rest1.take(m - lo) =~= chars@.subrange(lo as int, m as int));
    assert(rest1.skip(m - lo + 1) =~= rest2);
    let mode = mode_of(chars, lo, m);
    let o = find_separator(chars, m + 1, n);
    if o == n {
        return Err(MapsErrorKind::MissingOffset);
    }
    assert(rest2.take(o - m - 1) =~= chars@.subrange(m + 1, o as int));
    assert(rest2.skip(o - m) =~= chars@.subrange(o + 1, n as int));
    let offset = match parse_hex(chars, m + 1, o) {
        Some(v) => v,
        None => {
            return Err(MapsErrorKind::MalformedOffset);
        },
    };
    let (ps, pe) = match parse_path_field(chars, o + 1) {
        Ok(bounds) => bounds,
        Err(kind) => {
            return Err(kind);
        },
    };
    Ok((mode, offset, ps, pe))
}

/// Parses one line of a `/proc/<pid>/maps` file of process `pid`.
///
/// The line holds, separated by white space, an address range `start-end`,
/// the permissions, the file offset, the device, the inode and an optional
/// path field; start, end and offset are hexadecimal. A missing field, an
/// address range without `-` or a number that does not parse is an error
/// that names the problem and carries the line.
pub fn parse_maps_line(line: &str, pid: Pid) -> (r: Result<MapsEntry, MapsError>)
    ensures
        parsed_as(r, line@, pid),
{
    let chars = chars_of(line);
    let n = chars.len();
    let ghost l = line@;
    assert(chars@.subrange(0, n as int) =~= l);
    let a = find_separator(&chars, 0, n);
    if a == n {
        return Err(line_error(MapsErrorKind::MissingAddressRange, line));
    }
    assert(l.take(a as int) =~= chars@.subrange(0, a as int));
    assert(l.skip(a + 1) =~= chars@.subrange(a + 1, n as int));
    let (start, end) = match parse_range(&chars, a) {
        Ok(bounds) => bounds,
        Err(kind) => {
            return Err(line_error(kind, line));
        },
    };
    let (mode, offset, ps, pe) = match parse_sequel(&chars, a + 1) {
        Ok(fields) => fields,
        Err(kind) => {
            return Err(line_error(kind, line));
        },
    };
    let path_name = classify_path(line, &chars, ps, pe, a, pid);
    Ok(MapsEntry { range: core::ops::Range { start, end }, mode, offset, path_name })
}

/// A line as read from a maps file, line break included: `None` for a
/// blank line, else the outcome of parsing the line without its leading and
/// trailing white space.
pub fn parse_raw_maps_line(raw: &str, pid: Pid) -> (r: Option<Result<MapsEntry, MapsError>>)
    ensures
        r is None <==> trim(raw@).len() == 0,
        r matches Some(x) ==> parsed_as(x, trim(raw@), pid),
{
    let chars = chars_of(raw);
    let (a, b) = trim_bounds(&chars, 0, chars.len());
    assert(chars@.subrange(0, chars@.len() as int) =~= raw@);
    if a == b {
        return None;
    }
    Some(parse_maps_line(raw.substring_char(a, b), pid))
}

/// The execute permission of a mode mask (the `x` position, bit 1).
pub open spec fn is_executable(mode: u8) -> bool {
    (mode as nat / 2) % 2 == 1
}

/// Keeps an entry that matters for symbolization, one that is executable
/// and backed by a file, narrowed to its file paths.
pub fn filter_map_relevant(entry: MapsEntry) -> (r: Option<PathMapsEntry>)
    ensures
        r is Some <==> is_executable(entry.mode) && entry.path_name matches Some(PathName::Path(_)),
        r matches Some(p) ==> p.range == entry.range && p._mode == entry.mode && p.offset
            == entry.offset && entry.path_name == Some(PathName::Path(p.path)),
{
    let MapsEntry { range, mode, offset, path_name } = entry;
    assert((mode & 2u8 == 2u8) == ((mode / 2) % 2 == 1)) by (bit_vector);
    // Only entries that are executable (--x-) are of relevance.
    if (mode & 0b0010) != 0b0010 {
        return None;
    }
    match path_name {
        Some(PathName::Path(path)) => Some(PathMapsEntry { range, _mode: mode, offset, path }),
        _ => None,
    }
}

} // verus!
