//! Station and trip records, parsed from one line of a network description.
use vstd::prelude::*;

verus! {

/// True for the ASCII decimal digits.
pub open spec fn is_digit(c: char) -> bool {
    '0' <= c && c <= '9'
}

/// A non-empty run of decimal digits.
pub open spec fn all_digits(s: Seq<char>) -> bool {
    s.len() > 0 && forall|i: int| 0 <= i < s.len() ==> is_digit(#[trigger] s[i])
}

/// The number written by a run of decimal digits.
pub open spec fn digits_value(s: Seq<char>) -> nat
    decreases s.len(),
{
    if s.len() == 0 {
        0
    } else {
        digits_value(s.drop_last()) * 10 + ((s.last() as nat) - ('0' as nat)) as nat
    }
}

/// A field that holds an unsigned number small enough for a `usize`.
pub open spec fn is_number(s: Seq<char>) -> bool {
    all_digits(s) && digits_value(s) <= usize::MAX
}

/// The position of the first space at or after `i`, or the length when there is none.
pub open spec fn space_from(s: Seq<char>, i: int) -> int
    decreases s.len() - i,
{
    if i < 0 || i >= s.len() {
        s.len() as int
    } else if s[i] == ' ' {
        i
    } else {
        space_from(s, i + 1)
    }
}

/// The line identifier without its leading zeros.
pub open spec fn trim_zeros(s: Seq<char>) -> Seq<char>
    decreases s.len(),
{
    if s.len() > 0 && s[0] == '0' {
        trim_zeros(s.drop_first())
    } else {
        s
    }
}

/// A record starting with the given tag letter and a space.
pub open spec fn tagged(s: Seq<char>, tag: char) -> bool {
    s.len() >= 2 && s[0] == tag && s[1] == ' '
}

/// The ends of the first three space-separated fields after the tag.
pub open spec fn cut0(s: Seq<char>) -> int {
    space_from(s, 2)
}

pub open spec fn cut1(s: Seq<char>) -> int {
    space_from(s, cut0(s) + 1)
}

pub open spec fn cut2(s: Seq<char>) -> int {
    space_from(s, cut1(s) + 1)
}

/// The fields of a record cut at its first three spaces: the last one keeps the
/// rest of the line, spaces included.
pub open spec fn field0(s: Seq<char>) -> Seq<char> {
    s.subrange(2, cut0(s))
}

pub open spec fn field1(s: Seq<char>) -> Seq<char> {
    s.subrange(cut0(s) + 1, cut1(s))
}

pub open spec fn field2(s: Seq<char>) -> Seq<char> {
    s.subrange(cut1(s) + 1, cut2(s))
}

pub open spec fn field3(s: Seq<char>) -> Seq<char> {
    s.subrange(cut2(s) + 1, s.len() as int)
}

/// `V <id> <line> <terminus flag> <name>`, the name being the rest of the line.
pub open spec fn valid_station_record(s: Seq<char>) -> bool {
    &&& tagged(s, 'V')
    &&& cut0(s) < s.len()
    &&& cut1(s) < s.len()
    &&& cut2(s) < s.len()
    &&& is_number(field0(s))
}

/// `E <station> <station> <seconds>`, exactly three fields.
pub open spec fn valid_trip_record(s: Seq<char>) -> bool {
    &&& tagged(s, 'E')
    &&& cut0(s) < s.len()
    &&& cut1(s) < s.len()
    &&& is_number(field0(s))
    &&& is_number(field1(s))
    &&& is_number(s.subrange(cut1(s) + 1, s.len() as int))
}

/// A station of the network: its line, and whether it ends that line.
#[derive(Debug)]
pub struct Station {
    pub id: usize,
    pub line: String,
    pub state: bool,
    pub name: String,
}

pub struct StationView {
    pub id: nat,
    pub line: Seq<char>,
    pub state: bool,
    pub name: Seq<char>,
}

impl View for Station {
    type V = StationView;

    open spec fn view(&self) -> StationView {
        StationView { id: self.id as nat, line: self.line@, state: self.state, name: self.name@ }
    }
}

/// The station that a valid station record describes.
pub open spec fn station_of(s: Seq<char>) -> StationView {
    StationView {
        id: digits_value(field0(s)),
        line: trim_zeros(field1(s)),
        state: field2(s) == seq!['1'],
        name: field3(s),
    }
}

/// An undirected connection between two stations, with its travel time in seconds.
#[derive(Clone, Copy, PartialEq, Eq, Debug)]
pub struct Trip {
    pub first: usize,
    pub second: usize,
    pub time: usize,
}

/// The trip that a valid trip record describes.
pub open spec fn trip_of(s: Seq<char>) -> Trip {
    Trip {
        first: digits_value(field0(s)) as usize,
        second: digits_value(field1(s)) as usize,
        time: digits_value(s.subrange(cut1(s) + 1, s.len() as int)) as usize,
    }
}

/// Relies on `str::chars`: the characters of the string, in order.
#[verifier::external_body]
pub(crate) fn chars_of(s: &str) -> (r: Vec<char>)
    ensures
        r@ == s@,
{
    s.chars().collect()
}

/// Relies on `String::push`: appends one character.
#[verifier::external_body]
fn push_char(s: &mut String, c: char)
    ensures
        final(s)@ == old(s)@.push(c),
{
    s.push(c)
}

/// The string made of `cs[from..to]`.
fn string_of(cs: &Vec<char>, from: usize, to: usize) -> (r: String)
    requires
        from <= to <= cs@.len(),
    ensures
        r@ == cs@.subrange(from as int, to as int),
{
    let mut r = String::new();
    let mut k: usize = from;
    while k < to
        invariant
            from <= k <= to <= cs@.len(),
            r@ == cs@.subrange(from as int, k as int),
        decreases to - k,
    {
        push_char(&mut r, cs[k]);
        k = k + 1;
        assert(r@ =~= cs@.subrange(from as int, k as int));
    }
    r
}

/// The position of the first space at or after `from`.
fn find_space(cs: &Vec<char>, from: usize) -> (r: usize)
    requires
        from <= cs@.len(),
    ensures
        r as int == space_from(cs@, from as int),
        from <= r <= cs@.len(),
{
    let mut k: usize = from;
    while k < cs.len() && cs[k] != ' '
        invariant
            from <= k <= cs@.len(),
            space_from(cs@, from as int) == space_from(cs@, k as int),
        decreases cs@.len() - k,
    {
        k = k + 1;
    }
    k
}

proof fn lemma_digits_grow(s: Seq<char>, k: int)
    requires
        0 <= k <= s.len(),
    ensures
        digits_value(s.subrange(0, k)) <= digits_value(s),
    decreases s.len() - k,
{
    if k < s.len() {
        lemma_digits_grow(s, k + 1);
        assert(s.subrange(0, k + 1).drop_last() =~= s.subrange(0, k));
    } else {
        assert(s.subrange(0, k) =~= s);
    }
}

/// The number written in `cs[from..to]`, when that is a number that fits.
fn parse_number(cs: &Vec<char>, from: usize, to: usize) -> (r: Option<usize>)
    requires
        from <= to <= cs@.len(),
    ensures
        r is Some <==> is_number(cs@.subrange(from as int, to as int)),
        r is Some ==> r->0 as nat == digits_value(cs@.subrange(from as int, to as int)),
{
    let ghost f = cs@.subrange(from as int, to as int);
    if from == to {
        return None;
    }
    let mut v: usize = 0;
    let mut k: usize = from;
    while k < to
        invariant
            from <= k <= to <= cs@.len(),
            f == cs@.subrange(from as int, to as int),
            forall|i: int| 0 <= i < k - from ==> is_digit(#[trigger] f[i]),
            v as nat == digits_value(f.subrange(0, k - from)),
        decreases to - k,
    {
        let c = cs[k];
        if !('0' <= c && c <= '9') {
            assert(!is_digit(f[k - from]));
            return None;
        }
        let d: usize = (c as u32 - '0' as u32) as usize;
        proof {
            assert(f.subrange(0, k - from + 1).drop_last() =~= f.subrange(0, k - from));
        }
        if v > (usize::MAX - d) / 10 {
            proof {
                assert(digits_value(f.subrange(0, k - from + 1)) > usize::MAX);
                lemma_digits_grow(f, k - from + 1);
            }
            return None;
        }
        v = v * 10 + d;
        k = k + 1;
    }
    assert(f.subrange(0, to - from) =~= f);
    Some(v)
}

proof fn lemma_trim_step(s: Seq<char>, a: int, b: int)
    requires
        0 <= a < b <= s.len(),
        s[a] == '0',
    ensures
        trim_zeros(s.subrange(a, b)) == trim_zeros(s.subrange(a + 1, b)),
{
    assert(s.subrange(a, b).drop_first() =~= s.subrange(a + 1, b));
}

/// The line identifier in `cs[from..to]` without its leading zeros.
fn line_of(cs: &Vec<char>, from: usize, to: usize) -> (r: String)
    requires
        from <= to <= cs@.len(),
    ensures
        r@ == trim_zeros(cs@.subrange(from as int, to as int)),
{
    let mut k: usize = from;
    while k < to && cs[k] == '0'
        invariant
            from <= k <= to <= cs@.len(),
            trim_zeros(cs@.subrange(from as int, to as int)) == trim_zeros(
                cs@.subrange(k as int, to as int),
            ),
        decreases to - k,
    {
        proof {
            lemma_trim_step(cs@, k as int, to as int);
        }
        k = k + 1;
    }
    string_of(cs, k, to)
}

impl Station {
    /// Reads a station record, `V <id> <line> <flag> <name>`. The line loses its
    /// leading zeros, and the station is a terminus when the flag is `1`.
    pub fn new(description: &str) -> (r: Option<Station>)
        ensures
            r is Some <==> valid_station_record(description@),
            r is Some ==> r->0@ == station_of(description@),
    {
        let cs = chars_of(description);
        if cs.len() < 2 || cs[0] != 'V' || cs[1] != ' ' {
            return None;
        }
        let c0 = find_space(&cs, 2);
        if c0 == cs.len() {
            return None;
        }
        let c1 = find_space(&cs, c0 + 1);
        if c1 == cs.len() {
            return None;
        }
        let c2 = find_space(&cs, c1 + 1);
        if c2 == cs.len() {
            return None;
        }
        let id = match parse_number(&cs, 2, c0) {
            Some(v) => v,
            None => return None,
        };
        let line = line_of(&cs, c0 + 1, c1);
        let state = c2 == c1 + 2 && cs[c1 + 1] == '1';
        proof {
            let f2 = cs@.subrange(c1 + 1, c2 as int);
            if state {
                assert(f2 =~= seq!['1']);
            }
            if f2 == seq!['1'] {
                assert(f2.len() == 1 && f2[0] == '1');
            }
        }
        let name = string_of(&cs, c2 + 1, cs.len());
        Some(Station { id, line, state, name })
    }
}

impl Trip {
    /// Reads a trip record, `E <station> <station> <seconds>`.
    pub fn new(config: &str) -> (r: Option<Trip>)
        ensures
            r is Some <==> valid_trip_record(config@),
            r is Some ==> r->0 == trip_of(config@),
    {
        let cs = chars_of(config);
        if cs.len() < 2 || cs[0] != 'E' || cs[1] != ' ' {
            return None;
        }
        let c0 = find_space(&cs, 2);
        if c0 == cs.len() {
            return None;
        }
        let c1 = find_space(&cs, c0 + 1);
        if c1 == cs.len() {
            return None;
        }
        let first = match parse_number(&cs, 2, c0) {
            Some(v) => v,
            None => return None,
        };
        let second = match parse_number(&cs, c0 + 1, c1) {
            Some(v) => v,
            None => return None,
        };
        let time = match parse_number(&cs, c1 + 1, cs.len()) {
            Some(v) => v,
            None => return None,
        };
        Some(Trip { first, second, time })
    }
}

} // verus!
