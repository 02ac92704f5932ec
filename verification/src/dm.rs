//! A device-mapper device as `dmsetup` names it, and the lines that
//! `dmsetup table` and `dmsetup status` print for it.
use vstd::prelude::*;
use vstd::string::{StrSliceExecFns, StringExecFns};
use crate::decimal::{parse_u64, parses_u64, u64_value};
use crate::sector::Sector;

verus! {

/// The views of a sequence of strings.
pub open spec fn texts(v: Seq<String>) -> Seq<Seq<char>> {
    v.map_values(|p: String| p@)
}

/// The pieces of `s` between single spaces, as `str::split(" ")` yields
/// them: `n` spaces give `n + 1` pieces, some of them empty.
pub open spec fn space_split(s: Seq<char>) -> Seq<Seq<char>>
    decreases s.len(),
{
    if s.len() == 0 {
        seq![Seq::<char>::empty()]
    } else if s.last() == ' ' {
        space_split(s.drop_last()).push(Seq::<char>::empty())
    } else {
        let p = space_split(s.drop_last());
        p.update(p.len() - 1, p.last().push(s.last()))
    }
}

proof fn lemma_space_split_nonempty(s: Seq<char>)
    ensures
        space_split(s).len() >= 1,
    decreases s.len(),
{
    if s.len() > 0 {
        lemma_space_split_nonempty(s.drop_last());
    }
}

/// Splitting at a space that joins two texts splits each of them.
pub proof fn lemma_space_split_concat(a: Seq<char>, b: Seq<char>)
    ensures
        space_split(a + seq![' '] + b) == space_split(a) + space_split(b),
    decreases b.len(),
{
    let s = a + seq![' '] + b;
    if b.len() == 0 {
        assert(s.drop_last() =~= a);
        assert(space_split(b) =~= seq![Seq::<char>::empty()]);
        assert(space_split(s) =~= space_split(a) + space_split(b));
    } else {
        let b1 = b.drop_last();
        assert(s.drop_last() =~= a + seq![' '] + b1);
        assert(s.last() == b.last());
        lemma_space_split_concat(a, b1);
        lemma_space_split_nonempty(b1);
        let pa = space_split(a);
        let pb = space_split(b1);
        if b.last() == ' ' {
            assert(space_split(s) =~= (pa + pb).push(Seq::<char>::empty()));
            assert(space_split(b) =~= pb.push(Seq::<char>::empty()));
            assert(space_split(s) =~= pa + space_split(b));
        } else {
            let p = pa + pb;
            assert(p.last() == pb.last());
            assert(space_split(s) =~= p.update(p.len() - 1, pb.last().push(b.last())));
            assert(space_split(b) =~= pb.update(pb.len() - 1, pb.last().push(b.last())));
            assert(space_split(s) =~= pa + space_split(b));
        }
    }
}

/// A text without spaces splits into itself alone.
pub proof fn lemma_space_split_word(w: Seq<char>)
    requires
        forall|i: int| 0 <= i < w.len() ==> w[i] != ' ',
    ensures
        space_split(w) == seq![w],
    decreases w.len(),
{
    if w.len() > 0 {
        lemma_space_split_word(w.drop_last());
        assert(space_split(w) =~= seq![w.drop_last().push(w.last())]);
        assert(w.drop_last().push(w.last()) =~= w);
    } else {
        assert(w =~= Seq::<char>::empty());
    }
}

/// Splits `s` at every single space.
pub fn split_on_spaces(s: &str) -> (pieces: Vec<String>)
    ensures
        texts(pieces@) == space_split(s@),
{
    let n = s.unicode_len();
    let mut pieces: Vec<String> = Vec::new();
    let mut start: usize = 0;
    let mut k: usize = 0;
    assert(s@.take(0) =~= Seq::<char>::empty());
    assert(texts(pieces@).push(s@.subrange(0, 0)) =~= seq![Seq::<char>::empty()]);
    while k < n
        invariant
            n == s@.len(),
            start <= k <= n,
            space_split(s@.take(k as int)) == texts(pieces@).push(s@.subrange(start as int, k as int)),
        decreases n - k,
    {
        let c = s.get_char(k);
        let ghost before = s@.take(k as int);
        assert(s@.take(k + 1).drop_last() =~= before);
        assert(s@.take(k + 1).last() == c);
        if c == ' ' {
            let piece = s.substring_char(start, k);
            pieces.push(String::from_str(piece));
            assert(texts(pieces@) =~= texts(pieces@.drop_last()).push(s@.subrange(start as int, k as int)));
            start = k + 1;
            assert(s@.subrange(start as int, k + 1) =~= Seq::<char>::empty());
        } else {
            assert(s@.subrange(start as int, k + 1) =~= s@.subrange(start as int, k as int).push(c));
        }
        k = k + 1;
        assert(texts(pieces@).push(s@.subrange(start as int, k as int)) =~= space_split(s@.take(k as int)));
    }
    let last = s.substring_char(start, n);
    pieces.push(String::from_str(last));
    assert(s@.take(n as int) =~= s@);
    assert(texts(pieces@) =~= texts(pieces@.drop_last()).push(s@.subrange(start as int, n as int)));
    pieces
}

/// Whether a table or status line is one that `from_str` reads: at least
/// three pieces, the first two of them numbers.
pub open spec fn line_parses(s: Seq<char>) -> bool {
    let xs = space_split(s);
    &&& xs.len() >= 3
    &&& parses_u64(xs[0])
    &&& parses_u64(xs[1])
}

/// Reads `start len target args...` from a line.
fn parse_line(s: &str) -> (r: Option<(Sector, Sector, String, Vec<String>)>)
    ensures
        r is Some <==> line_parses(s@),
        r matches Some((start, len, target, args)) ==> {
            let xs = space_split(s@);
            &&& start.0 == u64_value(xs[0])
            &&& len.0 == u64_value(xs[1])
            &&& target@ == xs[2]
            &&& texts(args@) == xs.skip(3)
        },
{
    let xs = split_on_spaces(s);
    proof {
        lemma_space_split_nonempty(s@);
    }
    assert(xs@[0]@ == texts(xs@)[0]);
    let start = match parse_u64(xs[0].as_str()) {
        Some(v) => v,
        None => return None,
    };
    if xs.len() < 2 {
        return None;
    }
    assert(xs@[1]@ == texts(xs@)[1]);
    let len = match parse_u64(xs[1].as_str()) {
        Some(v) => v,
        None => return None,
    };
    if xs.len() < 3 {
        return None;
    }
    assert(xs@[2]@ == texts(xs@)[2]);
    let target = xs[2].clone();
    let mut args: Vec<String> = Vec::new();
    let mut k: usize = 3;
    while k < xs.len()
        invariant
            3 <= k <= xs.len(),
            args@.len() == k - 3,
            texts(args@) == texts(xs@).subrange(3, k as int),
        decreases xs.len() - k,
    {
        let ghost before = args@;
        args.push(xs[k].clone());
        assert forall|j: int| 0 <= j < args@.len() implies texts(args@)[j] == texts(xs@).subrange(3, k + 1)[j] by {
            if j < before.len() {
                assert(args@[j] == before[j]);
                assert(texts(before)[j] == texts(xs@).subrange(3, k as int)[j]);
            }
        }
        assert(texts(args@) =~= texts(xs@).subrange(3, k + 1));
        k = k + 1;
    }
    assert(texts(xs@).subrange(3, xs.len() as int) =~= texts(xs@).skip(3));
    Some((Sector(start), Sector(len), target, args))
}

/// Whether `s` is a table or status line that `from_str` reads, as
/// `line_parses` says.
pub fn is_line(s: &str) -> (b: bool)
    ensures
        b == line_parses(s@),
{
    parse_line(s).is_some()
}

/// A line of `dmsetup table`.
pub struct Table {
    pub start: Sector,
    pub len: Sector,
    pub target: String,
    pub args: Vec<String>,
}

impl Table {
    /// Reads a table line: `start len target args...`, split at single
    /// spaces. The line must be one that `line_parses` accepts: at least three
    /// pieces, the first two of them numbers.
    pub fn from_str(s: &str) -> (r: Result<Table, ()>)
        requires
            line_parses(s@),
        ensures
            r matches Ok(t) && {
                let xs = space_split(s@);
                &&& t.start.0 == u64_value(xs[0])
                &&& t.len.0 == u64_value(xs[1])
                &&& t.target@ == xs[2]
                &&& texts(t.args@) == xs.skip(3)
            },
    {
        match parse_line(s) {
            Some((start, len, target, args)) => Ok(Table { start, len, target, args }),
            None => Err(()),
        }
    }
}

impl core::str::FromStr for Table {
    type Err = ();

    /// Reads a table line as the inherent `from_str` does. A line that
    /// `line_parses` refuses, on which that one may not be called, gives
    /// `Err(())`.
    fn from_str(s: &str) -> (r: Result<Table, ()>)
        ensures
            r is Ok <==> line_parses(s@),
            r matches Ok(t) ==> {
                let xs = space_split(s@);
                &&& t.start.0 == u64_value(xs[0])
                &&& t.len.0 == u64_value(xs[1])
                &&& t.target@ == xs[2]
                &&& texts(t.args@) == xs.skip(3)
            },
    {
        if is_line(s) {
            Table::from_str(s)
        } else {
            Err(())
        }
    }
}

/// A line of `dmsetup status`.
pub struct Status {
    pub start: Sector,
    pub len: Sector,
    pub target: String,
    pub args: Vec<String>,
}

impl Status {
    /// Reads a status line: `start len target args...`, split at single
    /// spaces. The line must be one that `line_parses` accepts: at least three
    /// pieces, the first two of them numbers.
    pub fn from_str(s: &str) -> (r: Result<Status, ()>)
        requires
            line_parses(s@),
        ensures
            r matches Ok(t) && {
                let xs = space_split(s@);
                &&& t.start.0 == u64_value(xs[0])
                &&& t.len.0 == u64_value(xs[1])
                &&& t.target@ == xs[2]
                &&& texts(t.args@) == xs.skip(3)
            },
    {
        match parse_line(s) {
            Some((start, len, target, args)) => Ok(Status { start, len, target, args }),
            None => Err(()),
        }
    }
}

impl core::str::FromStr for Status {
    type Err = ();

    /// Reads a status line as the inherent `from_str` does. A line that
    /// `line_parses` refuses, on which that one may not be called, gives
    /// `Err(())`.
    fn from_str(s: &str) -> (r: Result<Status, ()>)
        ensures
            r is Ok <==> line_parses(s@),
            r matches Ok(t) ==> {
                let xs = space_split(s@);
                &&& t.start.0 == u64_value(xs[0])
                &&& t.len.0 == u64_value(xs[1])
                &&& t.target@ == xs[2]
                &&& texts(t.args@) == xs.skip(3)
            },
    {
        if is_line(s) {
            Status::from_str(s)
        } else {
            Err(())
        }
    }
}

/// A device-mapper device, known by its name.
pub struct State {
    name: String,
}

impl View for State {
    type V = Seq<char>;

    closed spec fn view(&self) -> Seq<char> {
        self.name@
    }
}

impl State {
    pub fn new(name: String) -> (s: State)
        ensures
            s@ == name@,
    {
        State { name }
    }

    /// The name that `dmsetup` knows the device by.
    pub fn name(&self) -> (n: &str)
        ensures
            n@ == self@,
    {
        self.name.as_str()
    }

    /// The device node: `/dev/mapper/` followed by the name.
    pub fn path(&self) -> (p: String)
        ensures
            p@ == "/dev/mapper/"@ + self@,
    {
        let mut p = String::from_str("/dev/mapper/");
        p.append(self.name.as_str());
        p
    }
}

} // verus!
