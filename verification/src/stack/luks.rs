//! A dm-crypt device opened with `cryptsetup luksOpen`.
use vstd::prelude::*;
use vstd::string::StringExecFns;

verus! {

/// An opened LUKS device, known by the name it was opened under.
pub struct Luks {
    name: String,
}

impl View for Luks {
    type V = Seq<char>;

    closed spec fn view(&self) -> Seq<char> {
        self.name@
    }
}

impl Luks {
    /// The device opened under `name`.
    pub fn opened_as(name: String) -> (l: Luks)
        ensures
            l@ == name@,
    {
        Luks { name }
    }

    /// The name the device was opened under.
    pub fn name(&self) -> (n: &str)
        ensures
            n@ == self@,
    {
        self.name.as_str()
    }

    /// The device node: `/dev/mapper/` followed by the name.
    pub fn path(&self) -> (p: String)
        ensures
            p@ == "/dev/mapper/"@ + self@,
    {
        let mut p = String::from_str("/dev/mapper/");
        p.append(self.name.as_str());
        p
    }
}

} // verus!
