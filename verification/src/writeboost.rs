//! The `writeboost` target: its tunables, its table line and its status line.
use vstd::prelude::*;
use vstd::string::StringExecFns;
use crate::decimal::{
    decimal, format_u64, lemma_decimal_parses, lemma_format_parse_roundtrip, parse_u64, parses_u64,
    u64_value,
};
use crate::dm::{lemma_space_split_concat, lemma_space_split_word, line_parses, space_split};
use crate::stack::linear::lemma_digits_no_space;
use crate::dm;
use crate::sector::Sector;

verus! {

/// A tunable of dm-writeboost that can be set in the table line.
#[derive(Clone, Copy, Debug, PartialEq, Eq, Structural)]
pub enum Tunable {
    WritebackThreshold,
    NrMaxBatchedWriteback,
    UpdateSbRecordInterval,
    SyncDataInterval,
    ReadCacheThreshold,
    WriteAroundMode,
    NrReadCacheCells,
}

/// The name of a tunable in the table line.
pub open spec fn tunable_name(t: Tunable) -> Seq<char> {
    match t {
        Tunable::WritebackThreshold => "writeback_threshold"@,
        Tunable::NrMaxBatchedWriteback => "nr_max_batched_writeback"@,
        Tunable::UpdateSbRecordInterval => "update_sb_record_interval"@,
        Tunable::SyncDataInterval => "sync_data_interval"@,
        Tunable::ReadCacheThreshold => "read_cache_threshold"@,
        Tunable::WriteAroundMode => "write_around_mode"@,
        Tunable::NrReadCacheCells => "nr_read_cache_cells"@,
    }
}

impl Tunable {
    /// The name of the tunable in the table line.
    pub fn name(&self) -> (n: &'static str)
        ensures
            n@ == tunable_name(*self),
    {
        match self {
            Tunable::WritebackThreshold => "writeback_threshold",
            Tunable::NrMaxBatchedWriteback => "nr_max_batched_writeback",
            Tunable::UpdateSbRecordInterval => "update_sb_record_interval",
            Tunable::SyncDataInterval => "sync_data_interval",
            Tunable::ReadCacheThreshold => "read_cache_threshold",
            Tunable::WriteAroundMode => "write_around_mode",
            Tunable::NrReadCacheCells => "nr_read_cache_cells",
        }
    }
}

/// The values that `Options` sets a tunable to: the ranges that its setters
/// check, and `1` for `write_around_mode`, which has no argument.
pub open spec fn in_range(t: Tunable, x: u64) -> bool {
    match t {
        Tunable::WritebackThreshold => x <= 100,
        Tunable::NrMaxBatchedWriteback => 1 <= x <= 32,
        Tunable::UpdateSbRecordInterval => x <= 3600,
        Tunable::SyncDataInterval => x <= 3600,
        Tunable::ReadCacheThreshold => x <= 127,
        Tunable::WriteAroundMode => x == 1,
        Tunable::NrReadCacheCells => 1 <= x <= 2048,
    }
}

/// The values each tunable takes: `writeback_threshold` a percentage from 0
/// to 100, `nr_max_batched_writeback` from 1 to 32, `update_sb_record_interval`
/// and `sync_data_interval` from 0 to 3600 seconds, `read_cache_threshold`
/// from 0 to 127, `nr_read_cache_cells` from 1 to 2048, and
/// `write_around_mode` only 1, the one value its setter sets.
pub proof fn lemma_tunable_ranges(x: u64)
    ensures
        in_range(Tunable::WritebackThreshold, x) <==> 0 <= x && x <= 100,
        in_range(Tunable::NrMaxBatchedWriteback, x) <==> 1 <= x && x <= 32,
        in_range(Tunable::UpdateSbRecordInterval, x) <==> 0 <= x && x <= 3600,
        in_range(Tunable::SyncDataInterval, x) <==> 0 <= x && x <= 3600,
        in_range(Tunable::ReadCacheThreshold, x) <==> 0 <= x && x <= 127,
        in_range(Tunable::WriteAroundMode, x) <==> x == 1,
        in_range(Tunable::NrReadCacheCells, x) <==> 1 <= x && x <= 2048,
{
}

impl Tunable {
    /// Whether the setter of this tunable takes `x`, as `in_range` says.
    pub fn accepts(&self, x: u64) -> (b: bool)
        ensures
            b == in_range(*self, x),
    {
        match self {
            Tunable::WritebackThreshold => x <= 100,
            Tunable::NrMaxBatchedWriteback => 1 <= x && x <= 32,
            Tunable::UpdateSbRecordInterval => x <= 3600,
            Tunable::SyncDataInterval => x <= 3600,
            Tunable::ReadCacheThreshold => x <= 127,
            Tunable::WriteAroundMode => x == 1,
            Tunable::NrReadCacheCells => 1 <= x && x <= 2048,
        }
    }
}

/// No tunable occurs twice.
pub open spec fn distinct_tunables(s: Seq<(Tunable, u64)>) -> bool {
    forall|i: int, j: int| 0 <= i < j < s.len() ==> (#[trigger] s[i]).0 != (#[trigger] s[j]).0
}

/// The settings after setting `t` to `v`: a tunable already set keeps its
/// place and takes the new value; a new one comes last.
pub open spec fn set_tunable(s: Seq<(Tunable, u64)>, t: Tunable, v: u64) -> Seq<(Tunable, u64)> {
    if exists|i: int| 0 <= i < s.len() && (#[trigger] s[i]).0 == t {
        s.update(choose|i: int| 0 <= i < s.len() && (#[trigger] s[i]).0 == t, (t, v))
    } else {
        s.push((t, v))
    }
}

/// ` <name> <value>` for each setting, in order.
pub open spec fn pairs_text(s: Seq<(Tunable, u64)>) -> Seq<char>
    decreases s.len(),
{
    if s.len() == 0 {
        Seq::empty()
    } else {
        pairs_text(s.drop_last()) + " "@ + tunable_name(s.last().0) + " "@ + decimal(
            s.last().1 as nat,
        )
    }
}

/// The tail of the table line that carries the settings: nothing when no
/// tunable is set, else ` <2n>` followed by the `n` pairs.
pub open spec fn options_text(s: Seq<(Tunable, u64)>) -> Seq<char> {
    if s.len() == 0 {
        Seq::empty()
    } else {
        " "@ + decimal((2 * s.len()) as nat) + pairs_text(s)
    }
}

/// The tunables to set when the device is created.
pub struct Options {
    m: Vec<(Tunable, u64)>,
}

impl View for Options {
    type V = Seq<(Tunable, u64)>;

    closed spec fn view(&self) -> Seq<(Tunable, u64)> {
        self.m@
    }
}

impl Clone for Options {
    /// The same settings, in the same order.
    fn clone(&self) -> (o: Options)
        ensures
            o@ == self@,
    {
        proof {
            use_type_invariant(self);
        }
        let mut m: Vec<(Tunable, u64)> = Vec::new();
        let mut k: usize = 0;
        while k < self.m.len()
            invariant
                k <= self.m@.len(),
                m@ == self.m@.take(k as int),
            decreases self.m@.len() - k,
        {
            m.push(self.m[k]);
            assert(self.m@.take(k + 1) =~= self.m@.take(k as int).push(self.m@[k as int]));
            k = k + 1;
        }
        assert(self.m@.take(self.m@.len() as int) =~= self.m@);
        Options { m }
    }
}

impl Default for Options {
    /// No tunable set.
    fn default() -> (o: Options)
        ensures
            o@ == Seq::<(Tunable, u64)>::empty(),
            distinct_tunables(o@),
    {
        Options { m: Vec::new() }
    }
}

impl Options {
    #[verifier::type_invariant]
    spec fn wf(self) -> bool {
        distinct_tunables(self.m@) && self.m@.len() <= 7
    }

    /// Sets the tunable `t` to `v`.
    fn set(self, t: Tunable, v: u64) -> (o: Options)
        ensures
            o@ == set_tunable(self@, t, v),
            distinct_tunables(o@),
    {
        proof {
            use_type_invariant(&self);
        }
        let mut m = self.m;
        let ghost s = m@;
        let mut i: usize = 0;
        while i < m.len()
            invariant
                m@ == s,
                s == self@,
                distinct_tunables(s),
                s.len() <= 7,
                i <= m.len(),
                forall|j: int| 0 <= j < i ==> (#[trigger] m@[j]).0 != t,
            decreases m.len() - i,
        {
            if m[i].0 == t {
                let ghost before = m@;
                m.set(i, (t, v));
                assert(before[i as int].0 == t);
                assert(exists|j: int| 0 <= j < s.len() && (#[trigger] s[j]).0 == t);
                let ghost c = choose|j: int| 0 <= j < s.len() && (#[trigger] s[j]).0 == t;
                assert(c == i) by {
                    if c != i {
                        if c < i {
                            assert(before[c].0 != t);
                        } else {
                            assert(before[i as int].0 != before[c].0);
                        }
                    }
                }
                assert(distinct_tunables(m@)) by {
                    assert forall|a: int, b: int| 0 <= a < b < m@.len() implies (#[trigger] m@[a]).0
                        != (#[trigger] m@[b]).0 by {
                        assert(before[a].0 != before[b].0);
                    }
                }
                assert(m@ =~= s.update(c, (t, v)));
                assert(m@ == set_tunable(s, t, v));
                let o = Options { m };
                return o;
            }
            i = i + 1;
        }
        assert(!exists|j: int| 0 <= j < m@.len() && (#[trigger] m@[j]).0 == t);
        proof {
            lemma_tunables_bound(m@, t);
        }
        m.push((t, v));
        Options { m }
    }

    /// Sets `writeback_threshold`, a percentage.
    pub fn writeback_threshold(self, x: u64) -> (o: Options)
        requires
            in_range(Tunable::WritebackThreshold, x),
        ensures
            o@ == set_tunable(self@, Tunable::WritebackThreshold, x),
            distinct_tunables(o@),
    {
        self.set(Tunable::WritebackThreshold, x)
    }

    /// Sets `nr_max_batched_writeback`, from 1 to 32.
    pub fn nr_max_batched_writeback(self, x: u64) -> (o: Options)
        requires
            in_range(Tunable::NrMaxBatchedWriteback, x),
        ensures
            o@ == set_tunable(self@, Tunable::NrMaxBatchedWriteback, x),
            distinct_tunables(o@),
    {
        self.set(Tunable::NrMaxBatchedWriteback, x)
    }

    /// Sets `update_sb_record_interval`, in seconds, up to an hour.
    pub fn update_sb_record_interval(self, x: u64) -> (o: Options)
        requires
            in_range(Tunable::UpdateSbRecordInterval, x),
        ensures
            o@ == set_tunable(self@, Tunable::UpdateSbRecordInterval, x),
            distinct_tunables(o@),
    {
        self.set(Tunable::UpdateSbRecordInterval, x)
    }

    /// Sets `sync_data_interval`, in seconds, up to an hour.
    pub fn sync_data_interval(self, x: u64) -> (o: Options)
        requires
            in_range(Tunable::SyncDataInterval, x),
        ensures
            o@ == set_tunable(self@, Tunable::SyncDataInterval, x),
            distinct_tunables(o@),
    {
        self.set(Tunable::SyncDataInterval, x)
    }

    /// Sets `read_cache_threshold`, up to 127.
    pub fn read_cache_threshold(self, x: u64) -> (o: Options)
        requires
            in_range(Tunable::ReadCacheThreshold, x),
        ensures
            o@ == set_tunable(self@, Tunable::ReadCacheThreshold, x),
            distinct_tunables(o@),
    {
        self.set(Tunable::ReadCacheThreshold, x)
    }

    /// Turns `write_around_mode` on.
    pub fn write_around_mode(self) -> (o: Options)
        ensures
            o@ == set_tunable(self@, Tunable::WriteAroundMode, 1),
            distinct_tunables(o@),
    {
        self.set(Tunable::WriteAroundMode, 1)
    }

    /// Sets `nr_read_cache_cells`, from 1 to 2048.
    pub fn nr_read_cache_cells(self, x: u64) -> (o: Options)
        requires
            in_range(Tunable::NrReadCacheCells, x),
        ensures
            o@ == set_tunable(self@, Tunable::NrReadCacheCells, x),
            distinct_tunables(o@),
    {
        self.set(Tunable::NrReadCacheCells, x)
    }

    /// The settings as the table line carries them.
    pub fn mk_line_repr(&self) -> (s: String)
        ensures
            s@ == options_text(self@),
    {
        proof {
            use_type_invariant(self);
        }
        let n = self.m.len();
        if n == 0 {
            return String::new();
        }
        let mut s = String::from_str(" ");
        s.append(format_u64(n as u64 * 2).as_str());
        let ghost head = s@;
        let mut i: usize = 0;
        while i < n
            invariant
                n == self.m@.len(),
                n <= 7,
                i <= n,
                s@ == head + pairs_text(self.m@.take(i as int)),
            decreases n - i,
        {
            let (t, v) = self.m[i];
            s.append(" ");
            s.append(t.name());
            s.append(" ");
            s.append(format_u64(v).as_str());
            proof {
                let p = self.m@.take(i + 1);
                assert(p.drop_last() =~= self.m@.take(i as int));
                assert(p.last() == (t, v));
            }
            i = i + 1;
        }
        assert(self.m@.take(n as int) =~= self.m@);
        s
    }
}

/// The table of a writeboost device that caches `backing_dev` on
/// `cache_dev`.
pub struct Table {
    pub backing_dev: String,
    pub cache_dev: String,
    pub options: Options,
}

/// `0 <size> writeboost <backing_dev> <cache_dev>` and the settings.
pub open spec fn writeboost_line(
    size: u64,
    backing_dev: Seq<char>,
    cache_dev: Seq<char>,
    options: Seq<(Tunable, u64)>,
) -> Seq<char> {
    "0 "@ + decimal(size as nat) + " writeboost "@ + backing_dev + " "@ + cache_dev + options_text(
        options,
    )
}

impl Table {
    /// The table line for a backing device of `size` sectors.
    pub fn line(&self, size: Sector) -> (l: String)
        ensures
            l@ == writeboost_line(size.0, self.backing_dev@, self.cache_dev@, self.options@),
    {
        let mut l = String::from_str("0 ");
        l.append(format_u64(size.sectors()).as_str());
        l.append(" writeboost ");
        l.append(self.backing_dev.as_str());
        l.append(" ");
        l.append(self.cache_dev.as_str());
        l.append(self.options.mk_line_repr().as_str());
        l
    }
}

/// The pieces that the settings add to a table line, in order: each name,
/// then its value.
pub open spec fn pairs_pieces(s: Seq<(Tunable, u64)>) -> Seq<Seq<char>>
    decreases s.len(),
{
    if s.len() == 0 {
        Seq::empty()
    } else {
        pairs_pieces(s.drop_last()) + seq![tunable_name(s.last().0), decimal(s.last().1 as nat)]
    }
}

proof fn lemma_name_no_space(t: Tunable)
    ensures
        forall|i: int| 0 <= i < tunable_name(t).len() ==> tunable_name(t)[i] != ' ',
{
    reveal_strlit("writeback_threshold");
    reveal_strlit("nr_max_batched_writeback");
    reveal_strlit("update_sb_record_interval");
    reveal_strlit("sync_data_interval");
    reveal_strlit("read_cache_threshold");
    reveal_strlit("write_around_mode");
    reveal_strlit("nr_read_cache_cells");
}

proof fn lemma_pairs_split(a: Seq<char>, s: Seq<(Tunable, u64)>)
    ensures
        space_split(a + pairs_text(s)) == space_split(a) + pairs_pieces(s),
    decreases s.len(),
{
    if s.len() == 0 {
        assert(a + pairs_text(s) =~= a);
        assert(space_split(a) + pairs_pieces(s) =~= space_split(a));
    } else {
        reveal_strlit(" ");
        let s1 = s.drop_last();
        lemma_pairs_split(a, s1);
        let name = tunable_name(s.last().0);
        let value = decimal(s.last().1 as nat);
        lemma_name_no_space(s.last().0);
        lemma_decimal_parses(s.last().1 as nat);
        lemma_digits_no_space(value);
        lemma_space_split_word(name);
        lemma_space_split_word(value);
        let b = a + pairs_text(s1);
        assert(a + pairs_text(s) =~= b + seq![' '] + name + seq![' '] + value);
        lemma_space_split_concat(b, name);
        lemma_space_split_concat(b + seq![' '] + name, value);
        assert(space_split(a + pairs_text(s)) =~= space_split(a) + pairs_pieces(s));
    }
}

/// The line of a writeboost table reads back, through
/// `dm::Table::from_str`, as start 0, the size, the target `writeboost`,
/// and the arguments: the two devices, then, when some tunable is set,
/// twice their number and each name with its value. The device paths must
/// hold no space.
pub proof fn lemma_line_reads_back(
    size: u64,
    backing_dev: Seq<char>,
    cache_dev: Seq<char>,
    options: Seq<(Tunable, u64)>,
)
    requires
        forall|i: int| 0 <= i < backing_dev.len() ==> backing_dev[i] != ' ',
        forall|i: int| 0 <= i < cache_dev.len() ==> cache_dev[i] != ' ',
    ensures
        line_parses(writeboost_line(size, backing_dev, cache_dev, options)),
        space_split(writeboost_line(size, backing_dev, cache_dev, options)) == seq![
            "0"@,
            decimal(size as nat),
            "writeboost"@,
            backing_dev,
            cache_dev,
        ] + if options.len() == 0 {
            Seq::<Seq<char>>::empty()
        } else {
            seq![decimal((2 * options.len()) as nat)] + pairs_pieces(options)
        },
        u64_value(decimal(size as nat)) == size,
{
    reveal_strlit("0 ");
    reveal_strlit(" writeboost ");
    reveal_strlit(" ");
    reveal_strlit("0");
    reveal_strlit("writeboost");
    let sp = seq![' '];
    let zero = "0"@;
    let wb = "writeboost"@;
    let d1 = decimal(size as nat);
    lemma_decimal_parses(size as nat);
    lemma_format_parse_roundtrip(size);
    lemma_digits_no_space(d1);
    lemma_space_split_word(zero);
    lemma_space_split_word(wb);
    lemma_space_split_word(d1);
    lemma_space_split_word(backing_dev);
    lemma_space_split_word(cache_dev);
    let a2 = zero + sp + d1;
    let a3 = a2 + sp + wb;
    let a4 = a3 + sp + backing_dev;
    let base = a4 + sp + cache_dev;
    lemma_space_split_concat(zero, d1);
    lemma_space_split_concat(a2, wb);
    lemma_space_split_concat(a3, backing_dev);
    lemma_space_split_concat(a4, cache_dev);
    assert(space_split(base) =~= seq![zero, d1, wb, backing_dev, cache_dev]);
    let l = writeboost_line(size, backing_dev, cache_dev, options);
    if options.len() == 0 {
        assert(l =~= base);
    } else {
        let n = decimal((2 * options.len()) as nat);
        lemma_decimal_parses((2 * options.len()) as nat);
        lemma_digits_no_space(n);
        lemma_space_split_word(n);
        lemma_space_split_concat(base, n);
        assert(l =~= (base + sp + n) + pairs_text(options));
        lemma_pairs_split(base + sp + n, options);
    }
    assert(space_split(l) =~= seq![zero, d1, wb, backing_dev, cache_dev] + if options.len() == 0 {
        Seq::<Seq<char>>::empty()
    } else {
        seq![decimal((2 * options.len()) as nat)] + pairs_pieces(options)
    });
    assert(crate::decimal::digits_value(zero.drop_last()) == 0) by {
        assert(zero.drop_last() =~= Seq::<char>::empty());
    }
    assert(parses_u64(zero));
}

/// Which kind of I/O a statistics counter counts.
#[derive(Clone, Copy, Debug, PartialEq, Eq, Structural, Hash)]
pub struct StatKey {
    pub write: bool,
    pub hit: bool,
    pub on_buffer: bool,
    pub full_size: bool,
}

/// The key that the four low bits of `mask` stand for: bit 3 is `write`,
/// bit 2 `hit`, bit 1 `on_buffer` and bit 0 `full_size`.
pub open spec fn key_of_bits(mask: int) -> StatKey {
    StatKey {
        write: (mask / 8) % 2 == 1,
        hit: (mask / 4) % 2 == 1,
        on_buffer: (mask / 2) % 2 == 1,
        full_size: mask % 2 == 1,
    }
}

/// The four-bit number of a key; its inverse is `key_of_bits`.
pub open spec fn bits_of_key(k: StatKey) -> int {
    (if k.write { 8int } else { 0int }) + (if k.hit { 4int } else { 0int }) + (if k.on_buffer {
        2int
    } else {
        0int
    }) + (if k.full_size { 1int } else { 0int })
}

impl StatKey {
    /// The key that the four low bits of `mask` stand for.
    pub fn from_bits(mask: u8) -> (k: StatKey)
        ensures
            k == key_of_bits(mask as int),
            k.write == ((mask & 8u8) != 0u8),
            k.hit == ((mask & 4u8) != 0u8),
            k.on_buffer == ((mask & 2u8) != 0u8),
            k.full_size == ((mask & 1u8) != 0u8),
    {
        assert(((mask & 8u8) != 0u8) == ((mask / 8) % 2 == 1)) by (bit_vector);
        assert(((mask & 4u8) != 0u8) == ((mask / 4) % 2 == 1)) by (bit_vector);
        assert(((mask & 2u8) != 0u8) == ((mask / 2) % 2 == 1)) by (bit_vector);
        assert(((mask & 1u8) != 0u8) == (mask % 2 == 1)) by (bit_vector);
        StatKey {
            write: (mask & 8) != 0,
            hit: (mask & 4) != 0,
            on_buffer: (mask & 2) != 0,
            full_size: (mask & 1) != 0,
        }
    }

    /// The four-bit number of the key.
    pub fn to_bits(&self) -> (b: u8)
        ensures
            b == bits_of_key(*self),
            b < 16,
            self.write == ((b & 8u8) != 0u8),
            self.hit == ((b & 4u8) != 0u8),
            self.on_buffer == ((b & 2u8) != 0u8),
            self.full_size == ((b & 1u8) != 0u8),
    {
        proof {
            lemma_bits_of_key_reads_bits(*self);
        }
        (if self.write { 8u8 } else { 0u8 }) + (if self.hit { 4u8 } else { 0u8 }) + (if self.on_buffer {
            2u8
        } else {
            0u8
        }) + (if self.full_size { 1u8 } else { 0u8 })
    }
}

/// The key of a mask reads its four low bits: bit 3 says `write`, bit 2
/// `hit`, bit 1 `on_buffer` and bit 0 `full_size`.
pub proof fn lemma_key_of_bits_reads_bits(mask: u8)
    ensures
        key_of_bits(mask as int).write == ((mask & 8u8) != 0u8),
        key_of_bits(mask as int).hit == ((mask & 4u8) != 0u8),
        key_of_bits(mask as int).on_buffer == ((mask & 2u8) != 0u8),
        key_of_bits(mask as int).full_size == ((mask & 1u8) != 0u8),
{
    assert(((mask & 8u8) != 0u8) == ((mask / 8) % 2 == 1)) by (bit_vector);
    assert(((mask & 4u8) != 0u8) == ((mask / 4) % 2 == 1)) by (bit_vector);
    assert(((mask & 2u8) != 0u8) == ((mask / 2) % 2 == 1)) by (bit_vector);
    assert(((mask & 1u8) != 0u8) == (mask % 2 == 1)) by (bit_vector);
}

/// The number of a key is below sixteen and has bit 3 set exactly for
/// `write`, bit 2 for `hit`, bit 1 for `on_buffer` and bit 0 for `full_size`.
pub proof fn lemma_bits_of_key_reads_bits(k: StatKey)
    ensures
        0 <= bits_of_key(k) < 16,
        k.write == (((bits_of_key(k) as u8) & 8u8) != 0u8),
        k.hit == (((bits_of_key(k) as u8) & 4u8) != 0u8),
        k.on_buffer == (((bits_of_key(k) as u8) & 2u8) != 0u8),
        k.full_size == (((bits_of_key(k) as u8) & 1u8) != 0u8),
{
    let m = bits_of_key(k);
    lemma_stat_key_bits(m, k);
    lemma_key_of_bits_reads_bits(m as u8);
    assert((m as u8) as int == m);
}

/// The sixteen keys and the numbers below sixteen match one to one.
pub proof fn lemma_stat_key_bits(mask: int, k: StatKey)
    requires
        0 <= mask < 16,
    ensures
        bits_of_key(key_of_bits(mask)) == mask,
        key_of_bits(bits_of_key(k)) == k,
        0 <= bits_of_key(k) < 16,
{
}

/// The first index of `v` whose name is `k`, or -1.
pub open spec fn key_index(v: Seq<(Seq<char>, u64)>, k: Seq<char>) -> int
    decreases v.len(),
{
    if v.len() == 0 {
        -1
    } else if v.last().0 == k && key_index(v.drop_last(), k) < 0 {
        v.len() - 1
    } else {
        key_index(v.drop_last(), k)
    }
}

/// The list after setting `k` to `x`, as a map does: a name already there
/// takes the new value in its place; a new name comes last.
pub open spec fn upsert(v: Seq<(Seq<char>, u64)>, k: Seq<char>, x: u64) -> Seq<(Seq<char>, u64)> {
    let i = key_index(v, k);
    if i >= 0 {
        v.update(i, (k, x))
    } else {
        v.push((k, x))
    }
}

proof fn lemma_key_index(v: Seq<(Seq<char>, u64)>, k: Seq<char>)
    ensures
        -1 <= key_index(v, k) < v.len(),
        key_index(v, k) >= 0 ==> v[key_index(v, k)].0 == k,
        forall|j: int|
            0 <= j < v.len() && (key_index(v, k) < 0 || j < key_index(v, k)) ==> (#[trigger] v[j]).0
                != k,
    decreases v.len(),
{
    if v.len() > 0 {
        lemma_key_index(v.drop_last(), k);
        assert forall|j: int|
            0 <= j < v.len() && (key_index(v, k) < 0 || j < key_index(v, k)) implies (#[trigger] v[j]).0
            != k by {
            if j < v.len() - 1 {
                assert(v[j] == v.drop_last()[j]);
            }
        }
    }
}

/// No name occurs twice in the list.
pub open spec fn distinct_names(v: Seq<(Seq<char>, u64)>) -> bool {
    forall|i: int, j: int| 0 <= i < j < v.len() ==> (#[trigger] v[i]).0 != (#[trigger] v[j]).0
}

/// Setting a name keeps the names distinct, gives that name the new value,
/// and leaves the value of every other name as it was.
pub proof fn lemma_upsert(v: Seq<(Seq<char>, u64)>, k: Seq<char>, x: u64)
    requires
        distinct_names(v),
    ensures
        distinct_names(upsert(v, k, x)),
        upsert(v, k, x).contains((k, x)),
        forall|p: (Seq<char>, u64)| #[trigger] v.contains(p) && p.0 != k ==> upsert(v, k, x).contains(p),
        forall|p: (Seq<char>, u64)|
            #[trigger] upsert(v, k, x).contains(p) && p.0 != k ==> v.contains(p),
{
    lemma_key_index(v, k);
    let i = key_index(v, k);
    let w = upsert(v, k, x);
    if i >= 0 {
        assert(w[i] == (k, x));
        assert forall|a: int, b: int| 0 <= a < b < w.len() implies (#[trigger] w[a]).0 != (#[trigger] w[b]).0 by {
            assert(v[a].0 != v[b].0);
        }
        assert forall|p: (Seq<char>, u64)| #[trigger] v.contains(p) && p.0 != k implies w.contains(p) by {
            let j = choose|j: int| 0 <= j < v.len() && v[j] == p;
            assert(w[j] == p);
        }
        assert forall|p: (Seq<char>, u64)| #[trigger] w.contains(p) && p.0 != k implies v.contains(p) by {
            let j = choose|j: int| 0 <= j < w.len() && w[j] == p;
            assert(v[j] == p);
        }
    } else {
        assert(w[v.len() as int] == (k, x));
        assert forall|p: (Seq<char>, u64)| #[trigger] v.contains(p) && p.0 != k implies w.contains(p) by {
            let j = choose|j: int| 0 <= j < v.len() && v[j] == p;
            assert(w[j] == p);
        }
        assert forall|p: (Seq<char>, u64)| #[trigger] w.contains(p) && p.0 != k implies v.contains(p) by {
            let j = choose|j: int| 0 <= j < w.len() && w[j] == p;
            assert(v[j] == p);
        }
    }
}

/// The tunables read from a status line name each tunable once.
pub proof fn lemma_status_tunables_distinct(a: Seq<Seq<char>>, n: nat)
    ensures
        distinct_names(status_tunables(a, n)),
    decreases n,
{
    if n > 0 {
        lemma_status_tunables_distinct(a, (n - 1) as nat);
        let i = 25 + 2 * (n - 1);
        lemma_upsert(status_tunables(a, (n - 1) as nat), a[i], u64_value(a[i + 1]) as u64);
    }
}

/// The names and values of a list of tunables.
pub open spec fn pairs_view(v: Seq<(String, u64)>) -> Seq<(Seq<char>, u64)> {
    v.map_values(|p: (String, u64)| (p.0@, p.1))
}

/// Sets `k` to `x` in the list, as `upsert` says.
fn upsert_exec(v: &mut Vec<(String, u64)>, k: String, x: u64)
    ensures
        pairs_view(final(v)@) == upsert(pairs_view(old(v)@), k@, x),
{
    proof {
        lemma_key_index(pairs_view(v@), k@);
    }
    let ghost w = pairs_view(v@);
    let mut i: usize = 0;
    while i < v.len()
        invariant
            i <= v.len(),
            v@ == old(v)@,
            w == pairs_view(v@),
            forall|j: int| 0 <= j < i ==> (#[trigger] w[j]).0 != k@,
        decreases v.len() - i,
    {
        assert(w[i as int] == (v@[i as int].0@, v@[i as int].1));
        if v[i].0 == k {
            proof {
                lemma_key_index(w, k@);
            }
            assert(key_index(w, k@) == i as int);
            v.set(i, (k, x));
            assert(pairs_view(v@) =~= w.update(i as int, (k@, x)));
            return;
        }
        i = i + 1;
    }
    assert(key_index(w, k@) < 0);
    v.push((k, x));
    assert(pairs_view(v@) =~= w.push((k@, x)));
}

/// Whether a writeboost status line, split into its arguments, is one that
/// `Status::from` reads: 24 numbers, then optionally the count of tunables,
/// then pairs of a name and a number.
pub open spec fn status_parses(a: Seq<Seq<char>>) -> bool {
    &&& a.len() >= 24
    &&& forall|i: int| 0 <= i < 24 ==> parses_u64(#[trigger] a[i])
    &&& a.len() >= 25 ==> (a.len() - 25) % 2 == 0
    &&& forall|i: int| 25 < i < a.len() && (i - 25) % 2 == 1 ==> parses_u64(#[trigger] a[i])
}

/// The tunables that the first `n` name-value pairs of the status arguments
/// set, a later pair for a name overriding an earlier one.
pub open spec fn status_tunables(a: Seq<Seq<char>>, n: nat) -> Seq<(Seq<char>, u64)>
    decreases n,
{
    if n == 0 {
        Seq::empty()
    } else {
        let i = 25 + 2 * (n - 1);
        upsert(status_tunables(a, (n - 1) as nat), a[i], u64_value(a[i + 1]) as u64)
    }
}

/// The number of name-value pairs in the status arguments.
pub open spec fn status_pair_count(a: Seq<Seq<char>>) -> nat {
    if a.len() >= 25 {
        ((a.len() - 25) / 2) as nat
    } else {
        0
    }
}

/// The status of a writeboost device.
pub struct Status {
    pub cursor_pos: u64,
    pub nr_cache_blocks: u64,
    pub nr_segments: u64,
    pub current_id: u64,
    pub last_flushed_id: u64,
    pub last_writeback_id: u64,
    pub nr_dirty_cache_blocks: u64,
    /// The statistics counters, the counter of a key at the key's number.
    pub stat: Vec<u64>,
    pub nr_partial_flushed: u64,
    /// The tunables, in the order of their first appearance.
    pub options: Vec<(String, u64)>,
}

/// Whether `st` holds what the status arguments `a` say: the seven counters
/// in front, the sixteen statistics counters, the count of partially flushed
/// segments, and the tunables that the name-value pairs after the count of
/// tunables set.
pub open spec fn status_fields(st: Status, a: Seq<Seq<char>>) -> bool {
    &&& st.cursor_pos == u64_value(a[0])
    &&& st.nr_cache_blocks == u64_value(a[1])
    &&& st.nr_segments == u64_value(a[2])
    &&& st.current_id == u64_value(a[3])
    &&& st.last_flushed_id == u64_value(a[4])
    &&& st.last_writeback_id == u64_value(a[5])
    &&& st.nr_dirty_cache_blocks == u64_value(a[6])
    &&& st.stat@.len() == 16
    &&& forall|i: int| 0 <= i < 16 ==> #[trigger] st.stat@[i] == u64_value(a[7 + i])
    &&& st.nr_partial_flushed == u64_value(a[23])
    &&& pairs_view(st.options@) == status_tunables(a, status_pair_count(a))
}

/// A status holds the arguments of its line in their order: `cursor_pos`,
/// `nr_cache_blocks`, `nr_segments`, `current_id`, `last_flushed_id`,
/// `last_writeback_id` and `nr_dirty_cache_blocks` are arguments 0 to 6, the
/// counter of the key numbered `i` is argument `7 + i`, and
/// `nr_partial_flushed` is argument 23.
pub proof fn lemma_status_positions(st: Status, a: Seq<Seq<char>>)
    requires
        status_fields(st, a),
    ensures
        st.cursor_pos == u64_value(a[0]),
        st.nr_cache_blocks == u64_value(a[1]),
        st.nr_segments == u64_value(a[2]),
        st.current_id == u64_value(a[3]),
        st.last_flushed_id == u64_value(a[4]),
        st.last_writeback_id == u64_value(a[5]),
        st.nr_dirty_cache_blocks == u64_value(a[6]),
        st.stat@.len() == 16,
        forall|k: StatKey| #[trigger] st.stat@[bits_of_key(k)] == u64_value(a[7 + bits_of_key(k)]),
        st.nr_partial_flushed == u64_value(a[23]),
{
    assert forall|k: StatKey| #[trigger] st.stat@[bits_of_key(k)] == u64_value(a[7 + bits_of_key(k)]) by {
        lemma_bits_of_key_reads_bits(k);
    }
}

/// Reads the number at `*pos` and moves past it.
fn pop_int(q: &Vec<String>, pos: &mut usize) -> (r: Option<u64>)
    requires
        *old(pos) <= q.len(),
    ensures
        r is Some <==> *old(pos) < q.len() && parses_u64(q@[*old(pos) as int]@),
        r matches Some(v) ==> v == u64_value(q@[*old(pos) as int]@) && *final(pos) == *old(pos) + 1,
        *final(pos) <= q.len(),
{
    if *pos >= q.len() {
        return None;
    }
    let v = parse_u64(q[*pos].as_str());
    if v.is_some() {
        *pos = *pos + 1;
    }
    v
}

impl Status {
    /// The counter of key `k`, if there is one.
    pub fn stat_of(&self, k: &StatKey) -> (v: Option<u64>)
        ensures
            v is Some <==> bits_of_key(*k) < self.stat@.len(),
            v matches Some(x) ==> x == self.stat@[bits_of_key(*k)],
    {
        let i = k.to_bits() as usize;
        if i < self.stat.len() {
            Some(self.stat[i])
        } else {
            None
        }
    }

    /// Reads the status from the arguments of a `dmsetup status` line;
    /// `None` where they are not those of `status_parses`.
    fn read(dm_status: &dm::Status) -> (r: Option<Status>)
        ensures
            r is Some <==> status_parses(dm::texts(dm_status.args@)),
            r matches Some(st) ==> status_fields(st, dm::texts(dm_status.args@)),
    {
        let q = &dm_status.args;
        let ghost a = dm::texts(q@);
        assert forall|i: int| 0 <= i < q@.len() implies #[trigger] a[i] == q@[i]@ by {}
        let mut pos: usize = 0;
        let mut head: Vec<u64> = Vec::new();
        while pos < 7
            invariant
                pos <= 7,
                pos <= q.len(),
                head@.len() == pos,
                a == dm::texts(q@),
                a == dm::texts(dm_status.args@),
                a.len() == q.len(),
                forall|i: int| 0 <= i < pos ==> parses_u64(#[trigger] a[i]) && head@[i] == u64_value(a[i]),
            decreases 7 - pos,
        {
            let ghost p = pos;
            match pop_int(q, &mut pos) {
                Some(v) => head.push(v),
                None => {
                    assert(p >= q.len() || !parses_u64(a[p as int]));
                    assert(!status_parses(a));
                    return None;
                },
            }
        }
        let mut stat: Vec<u64> = Vec::new();
        while pos < 23
            invariant
                7 <= pos <= 23,
                pos <= q.len(),
                stat@.len() == pos - 7,
                a == dm::texts(q@),
                a == dm::texts(dm_status.args@),
                a.len() == q.len(),
                forall|i: int| 0 <= i < 7 ==> head@[i] == u64_value(#[trigger] a[i]),
                head@.len() == 7,
                forall|i: int| 0 <= i < pos ==> parses_u64(#[trigger] a[i]),
                forall|i: int| 0 <= i < pos - 7 ==> #[trigger] stat@[i] == u64_value(a[7 + i]),
            decreases 23 - pos,
        {
            let ghost p = pos;
            match pop_int(q, &mut pos) {
                Some(v) => stat.push(v),
                None => {
                    assert(p >= q.len() || !parses_u64(a[p as int]));
                    assert(!status_parses(a));
                    return None;
                },
            }
        }
        let ghost p23 = pos;
        let nr_partial_flushed = match pop_int(q, &mut pos) {
            Some(v) => v,
            None => {
                assert(p23 >= q.len() || !parses_u64(a[p23 as int]));
                assert(!status_parses(a));
                return None;
            },
        };
        let mut options: Vec<(String, u64)> = Vec::new();
        let mut n: usize = 0;
        if pos < q.len() {
            pos = pos + 1;
            while pos < q.len()
                invariant
                    a == dm::texts(q@),
                    a == dm::texts(dm_status.args@),
                    a.len() == q.len(),
                    q.len() >= 25,
                    pos == 25 + 2 * n,
                    pos <= q.len(),
                    forall|i: int| 25 < i < pos && (i - 25) % 2 == 1 ==> parses_u64(#[trigger] a[i]),
                    pairs_view(options@) == status_tunables(a, n as nat),
                decreases q.len() - pos,
            {
                let k = q[pos].clone();
                pos = pos + 1;
                let ghost pv = pos;
                let v = match pop_int(q, &mut pos) {
                    Some(v) => v,
                    None => {
                        assert(pv >= q.len() || !parses_u64(a[pv as int]));
                        assert(!status_parses(a));
                        return None;
                    },
                };
                upsert_exec(&mut options, k, v);
                n = n + 1;
            }
        }
        assert(n == status_pair_count(a));
        let st = Status {
            cursor_pos: head[0],
            nr_cache_blocks: head[1],
            nr_segments: head[2],
            current_id: head[3],
            last_flushed_id: head[4],
            last_writeback_id: head[5],
            nr_dirty_cache_blocks: head[6],
            stat,
            nr_partial_flushed,
            options,
        };
        assert(pairs_view(st.options@) == status_tunables(a, status_pair_count(a)));
        assert(status_fields(st, a));
        Some(st)
    }

    /// Whether the arguments of `dm_status` are those of a writeboost status
    /// that `from` reads, as `status_parses` says.
    pub fn readable(dm_status: &dm::Status) -> (b: bool)
        ensures
            b == status_parses(dm::texts(dm_status.args@)),
    {
        Status::read(dm_status).is_some()
    }

    /// Reads the status of a writeboost device from its `dmsetup status`
    /// line, whose arguments must be those of `status_parses`.
    pub fn from(dm_status: dm::Status) -> (st: Status)
        requires
            status_parses(dm::texts(dm_status.args@)),
        ensures
            status_fields(st, dm::texts(dm_status.args@)),
            st.cursor_pos == u64_value(dm_status.args@[0]@),
            st.nr_cache_blocks == u64_value(dm_status.args@[1]@),
            st.nr_segments == u64_value(dm_status.args@[2]@),
            st.current_id == u64_value(dm_status.args@[3]@),
            st.last_flushed_id == u64_value(dm_status.args@[4]@),
            st.last_writeback_id == u64_value(dm_status.args@[5]@),
            st.nr_dirty_cache_blocks == u64_value(dm_status.args@[6]@),
            st.nr_partial_flushed == u64_value(dm_status.args@[23]@),
    {
        let st = Status::read(&dm_status).unwrap();
        proof {
            lemma_status_positions(st, dm::texts(dm_status.args@));
        }
        st
    }
}

/// Setting a tunable keeps the tunables distinct, and setting it twice is
/// setting it once to the second value.
pub proof fn lemma_set_tunable(s: Seq<(Tunable, u64)>, t: Tunable, a: u64, b: u64)
    requires
        distinct_tunables(s),
    ensures
        distinct_tunables(set_tunable(s, t, a)),
        set_tunable(set_tunable(s, t, a), t, b) == set_tunable(s, t, b),
{
    let s1 = set_tunable(s, t, a);
    if exists|i: int| 0 <= i < s.len() && (#[trigger] s[i]).0 == t {
        let c = choose|i: int| 0 <= i < s.len() && (#[trigger] s[i]).0 == t;
        assert(s1 == s.update(c, (t, a)));
        assert(s1[c].0 == t);
        assert(exists|i: int| 0 <= i < s1.len() && (#[trigger] s1[i]).0 == t);
        let c1 = choose|i: int| 0 <= i < s1.len() && (#[trigger] s1[i]).0 == t;
        if c1 != c {
            assert(s1[c1] == s[c1]);
            if c1 < c {
                assert(s[c1].0 != s[c].0);
            } else {
                assert(s[c].0 != s[c1].0);
            }
        }
        assert(set_tunable(s1, t, b) =~= set_tunable(s, t, b));
    } else {
        assert(s1 == s.push((t, a)));
        let last = s.len() as int;
        assert(s1[last].0 == t);
        assert(exists|i: int| 0 <= i < s1.len() && (#[trigger] s1[i]).0 == t);
        let c1 = choose|i: int| 0 <= i < s1.len() && (#[trigger] s1[i]).0 == t;
        if c1 != last {
            assert(s1[c1] == s[c1]);
        }
        assert(set_tunable(s1, t, b) =~= set_tunable(s, t, b));
    }
}

/// Setting `t` to `v` gives `t` the value `v`, keeps the setting of every
/// other tunable and adds none: the settings behave as a map from tunable to
/// value.
pub proof fn lemma_set_tunable_contents(s: Seq<(Tunable, u64)>, t: Tunable, v: u64)
    requires
        distinct_tunables(s),
    ensures
        set_tunable(s, t, v).contains((t, v)),
        forall|p: (Tunable, u64)|
            #[trigger] s.contains(p) && p.0 != t ==> set_tunable(s, t, v).contains(p),
        forall|p: (Tunable, u64)|
            #[trigger] set_tunable(s, t, v).contains(p) ==> p == (t, v) || (p.0 != t && s.contains(p)),
{
    lemma_set_tunable(s, t, v, v);
    let w = set_tunable(s, t, v);
    if exists|i: int| 0 <= i < s.len() && (#[trigger] s[i]).0 == t {
        let c = choose|i: int| 0 <= i < s.len() && (#[trigger] s[i]).0 == t;
        assert(w == s.update(c, (t, v)));
        assert(w[c] == (t, v));
        assert forall|p: (Tunable, u64)| #[trigger] s.contains(p) && p.0 != t implies w.contains(p) by {
            let j = choose|j: int| 0 <= j < s.len() && s[j] == p;
            assert(w[j] == p);
        }
        assert forall|p: (Tunable, u64)| #[trigger] w.contains(p) implies p == (t, v) || (p.0 != t
            && s.contains(p)) by {
            let j = choose|j: int| 0 <= j < w.len() && w[j] == p;
            if j != c {
                assert(s[j] == p);
                if p.0 == t {
                    if j < c {
                        assert(s[j].0 != s[c].0);
                    } else {
                        assert(s[c].0 != s[j].0);
                    }
                }
            }
        }
    } else {
        assert(w == s.push((t, v)));
        assert(w[s.len() as int] == (t, v));
        assert forall|p: (Tunable, u64)| #[trigger] s.contains(p) && p.0 != t implies w.contains(p) by {
            let j = choose|j: int| 0 <= j < s.len() && s[j] == p;
            assert(w[j] == p);
        }
        assert forall|p: (Tunable, u64)| #[trigger] w.contains(p) implies p == (t, v) || (p.0 != t
            && s.contains(p)) by {
            let j = choose|j: int| 0 <= j < w.len() && w[j] == p;
            if j < s.len() {
                assert(s[j] == p);
            }
        }
    }
}

/// Distinct tunables number at most seven, so a new one fits below that.
proof fn lemma_tunables_bound(s: Seq<(Tunable, u64)>, t: Tunable)
    requires
        distinct_tunables(s),
        forall|j: int| 0 <= j < s.len() ==> (#[trigger] s[j]).0 != t,
    ensures
        s.len() < 7,
{
    let keys = s.map_values(|p: (Tunable, u64)| p.0);
    let all = set![
        Tunable::WritebackThreshold,
        Tunable::NrMaxBatchedWriteback,
        Tunable::UpdateSbRecordInterval,
        Tunable::SyncDataInterval,
        Tunable::ReadCacheThreshold,
        Tunable::WriteAroundMode,
        Tunable::NrReadCacheCells,
    ];
    assert(keys.no_duplicates()) by {
        assert forall|i: int, j: int| 0 <= i < keys.len() && 0 <= j < keys.len() && i != j implies keys[i] != keys[j] by {
            if i < j {
                assert(s[i].0 != s[j].0);
            } else {
                assert(s[j].0 != s[i].0);
            }
        }
    }
    keys.unique_seq_to_set();
    assert(keys.to_set().subset_of(all.remove(t)));
    vstd::set_lib::lemma_len_subset(keys.to_set(), all.remove(t));
    assert(all.len() == 7) by {
        assert(all =~= set![Tunable::WritebackThreshold].insert(Tunable::NrMaxBatchedWriteback).insert(
            Tunable::UpdateSbRecordInterval,
        ).insert(Tunable::SyncDataInterval).insert(Tunable::ReadCacheThreshold).insert(
            Tunable::WriteAroundMode,
        ).insert(Tunable::NrReadCacheCells));
    }
}

} // verus!
