//! The `flakey` target: a device that fails on and off.
use vstd::prelude::*;
use vstd::string::StringExecFns;
use crate::decimal::{
    decimal, format_u64, lemma_decimal_parses, lemma_format_parse_roundtrip, parses_u64, u64_value,
};
use crate::dm::{lemma_space_split_concat, lemma_space_split_word, line_parses, space_split};
use crate::stack::linear::lemma_digits_no_space;
use crate::sector::Sector;

verus! {

/// The table of a flakey device over the whole of `backing_dev`. From the
/// time the table is loaded, the device works for `up_interval_sec` seconds,
/// then misbehaves for `down_interval_sec` seconds, and the cycle repeats.
pub struct Table {
    pub backing_dev: String,
    pub up_interval_sec: u64,
    pub down_interval_sec: u64,
}

/// `0 <size> flakey <backing_dev> 0 <up> <down>`.
pub open spec fn flakey_line(size: u64, backing_dev: Seq<char>, up: u64, down: u64) -> Seq<char> {
    "0 "@ + decimal(size as nat) + " flakey "@ + backing_dev + " 0 "@ + decimal(up as nat) + " "@
        + decimal(down as nat)
}

impl Table {
    /// The table line for a backing device of `size` sectors.
    pub fn line(&self, size: Sector) -> (l: String)
        ensures
            l@ == flakey_line(size.0, self.backing_dev@, self.up_interval_sec, self.down_interval_sec),
    {
        let mut l = String::from_str("0 ");
        l.append(format_u64(size.sectors()).as_str());
        l.append(" flakey ");
        l.append(self.backing_dev.as_str());
        l.append(" 0 ");
        l.append(format_u64(self.up_interval_sec).as_str());
        l.append(" ");
        l.append(format_u64(self.down_interval_sec).as_str());
        l
    }
}

/// The line of a flakey table reads back, through `dm::Table::from_str`, as
/// start 0, the size, the target `flakey`, and the arguments: the backing
/// device, `0`, and the two intervals. The device path must hold no space.
pub proof fn lemma_line_reads_back(size: u64, backing_dev: Seq<char>, up: u64, down: u64)
    requires
        forall|i: int| 0 <= i < backing_dev.len() ==> backing_dev[i] != ' ',
    ensures
        line_parses(flakey_line(size, backing_dev, up, down)),
        space_split(flakey_line(size, backing_dev, up, down)) == seq![
            "0"@,
            decimal(size as nat),
            "flakey"@,
            backing_dev,
            "0"@,
            decimal(up as nat),
            decimal(down as nat),
        ],
        u64_value(decimal(size as nat)) == size,
        u64_value(decimal(up as nat)) == up,
        u64_value(decimal(down as nat)) == down,
{
    reveal_strlit("0 ");
    reveal_strlit(" flakey ");
    reveal_strlit(" 0 ");
    reveal_strlit(" ");
    reveal_strlit("0");
    reveal_strlit("flakey");
    let sp = seq![' '];
    let zero = "0"@;
    let fl = "flakey"@;
    let d1 = decimal(size as nat);
    let d2 = decimal(up as nat);
    let d3 = decimal(down as nat);
    lemma_decimal_parses(size as nat);
    lemma_decimal_parses(up as nat);
    lemma_decimal_parses(down as nat);
    lemma_format_parse_roundtrip(size);
    lemma_format_parse_roundtrip(up);
    lemma_format_parse_roundtrip(down);
    lemma_digits_no_space(d1);
    lemma_digits_no_space(d2);
    lemma_digits_no_space(d3);
    lemma_space_split_word(zero);
    lemma_space_split_word(fl);
    lemma_space_split_word(d1);
    lemma_space_split_word(d2);
    lemma_space_split_word(d3);
    lemma_space_split_word(backing_dev);
    let l = flakey_line(size, backing_dev, up, down);
    let a1 = zero;
    let a2 = a1 + sp + d1;
    let a3 = a2 + sp + fl;
    let a4 = a3 + sp + backing_dev;
    let a5 = a4 + sp + zero;
    let a6 = a5 + sp + d2;
    let a7 = a6 + sp + d3;
    assert(l =~= a7);
    lemma_space_split_concat(a1, d1);
    lemma_space_split_concat(a2, fl);
    lemma_space_split_concat(a3, backing_dev);
    lemma_space_split_concat(a4, zero);
    lemma_space_split_concat(a5, d2);
    lemma_space_split_concat(a6, d3);
    assert(space_split(l) =~= seq![zero, d1, fl, backing_dev, zero, d2, d3]);
    assert(crate::decimal::digits_value(zero.drop_last()) == 0) by {
        assert(zero.drop_last() =~= Seq::<char>::empty());
    }
    assert(parses_u64(zero));
}

} // verus!
