//! The `linear` target: a window of a backing device.
use vstd::prelude::*;
use vstd::string::StringExecFns;
use crate::decimal::{
    all_digits, decimal, format_u64, lemma_decimal_parses, lemma_format_parse_roundtrip, parses_u64,
    u64_value,
};
use crate::dm::{lemma_space_split_concat, lemma_space_split_word, line_parses, space_split};
use crate::sector::Sector;

verus! {

/// The table of a linear device of `len` sectors that maps onto
/// `backing_dev` from sector `offset` on.
pub struct Table {
    pub backing_dev: String,
    pub offset: Sector,
    pub len: Sector,
}

/// `0 <len> linear <backing_dev> <offset>`.
pub open spec fn linear_line(len: u64, backing_dev: Seq<char>, offset: u64) -> Seq<char> {
    "0 "@ + decimal(len as nat) + " linear "@ + backing_dev + " "@ + decimal(offset as nat)
}

impl Table {
    /// The table line that `dmsetup reload` loads.
    pub fn line(&self) -> (l: String)
        ensures
            l@ == linear_line(self.len.0, self.backing_dev@, self.offset.0),
    {
        let mut l = String::from_str("0 ");
        l.append(format_u64(self.len.sectors()).as_str());
        l.append(" linear ");
        l.append(self.backing_dev.as_str());
        l.append(" ");
        l.append(format_u64(self.offset.sectors()).as_str());
        l
    }
}

/// A run of digits holds no space.
pub proof fn lemma_digits_no_space(d: Seq<char>)
    requires
        all_digits(d),
    ensures
        forall|i: int| 0 <= i < d.len() ==> d[i] != ' ',
{
    assert forall|i: int| 0 <= i < d.len() implies d[i] != ' ' by {
        assert(crate::decimal::is_digit(d[i]));
    }
}

/// The line of a linear table reads back, through `dm::Table::from_str`, as
/// the table it came from: start 0, the length, the target `linear`, and the
/// backing device and the offset as arguments. The device path must hold no
/// space, for the line is split at spaces.
pub proof fn lemma_line_reads_back(len: u64, backing_dev: Seq<char>, offset: u64)
    requires
        forall|i: int| 0 <= i < backing_dev.len() ==> backing_dev[i] != ' ',
    ensures
        line_parses(linear_line(len, backing_dev, offset)),
        space_split(linear_line(len, backing_dev, offset)) == seq![
            "0"@,
            decimal(len as nat),
            "linear"@,
            backing_dev,
            decimal(offset as nat),
        ],
        u64_value("0"@) == 0,
        u64_value(decimal(len as nat)) == len,
        u64_value(decimal(offset as nat)) == offset,
{
    reveal_strlit("0 ");
    reveal_strlit(" linear ");
    reveal_strlit(" ");
    reveal_strlit("0");
    reveal_strlit("linear");
    let sp = seq![' '];
    let zero = "0"@;
    let lin = "linear"@;
    let d1 = decimal(len as nat);
    let d2 = decimal(offset as nat);
    lemma_decimal_parses(len as nat);
    lemma_decimal_parses(offset as nat);
    lemma_format_parse_roundtrip(len);
    lemma_format_parse_roundtrip(offset);
    lemma_digits_no_space(d1);
    lemma_digits_no_space(d2);
    lemma_space_split_word(zero);
    lemma_space_split_word(lin);
    lemma_space_split_word(d1);
    lemma_space_split_word(d2);
    lemma_space_split_word(backing_dev);
    let l = linear_line(len, backing_dev, offset);
    let a1 = zero;
    let a2 = a1 + sp + d1;
    let a3 = a2 + sp + lin;
    let a4 = a3 + sp + backing_dev;
    let a5 = a4 + sp + d2;
    assert(l =~= a5);
    lemma_space_split_concat(a1, d1);
    lemma_space_split_concat(a2, lin);
    lemma_space_split_concat(a3, backing_dev);
    lemma_space_split_concat(a4, d2);
    assert(space_split(l) =~= seq![zero, d1, lin, backing_dev, d2]);
    assert(crate::decimal::digits_value(zero.drop_last()) == 0) by {
        assert(zero.drop_last() =~= Seq::<char>::empty());
    }
    assert(parses_u64(zero));
}

} // verus!
