//! Naming and placement of the files that COG conversion writes.
use vstd::prelude::*;
use crate::calendar::CalendarDate;
use crate::snodas::{name_of, ymd_text, ProductId, SnodasFile, output_filename_of};
use crate::text::append_padded;

verus! {

/// Converts batches of payloads into COGs under one output directory.
pub struct BatchConverter {
    output_dir: String,
}

impl BatchConverter {
    /// The directory the COGs go to.
    pub closed spec fn dir(&self) -> Seq<char> {
        self.output_dir@
    }

    /// A converter writing to `output_dir`.
    pub fn new(output_dir: &str) -> (b: BatchConverter)
        ensures
            b.dir() == output_dir@,
    {
        BatchConverter { output_dir: String::from_str(output_dir) }
    }

    /// The directory the COGs go to.
    pub fn output_dir(&self) -> (r: &str)
        ensures
            r@ == self.dir(),
    {
        self.output_dir.as_str()
    }

    /// The path, under the output directory, of the COG made from a payload.
    pub fn output_path(&self, f: &SnodasFile) -> (r: String)
        requires
            f.date.wf(),
        ensures
            r@ == self.dir() + "/"@ + output_filename_of(*f),
    {
        let mut r = String::from_str(self.output_dir.as_str());
        r.append("/");
        let name = f.output_filename();
        r.append(name.as_str());
        r
    }
}

/// The name of the raw raster staged for conversion: `<product>_YYYYMMDD.dat`.
pub open spec fn envi_file_name_of(product: ProductId, date: CalendarDate) -> Seq<char> {
    name_of(product) + "_"@ + ymd_text(date) + ".dat"@
}

/// The name of the raw raster staged for conversion of a payload.
pub fn envi_file_name(product: ProductId, date: CalendarDate) -> (r: String)
    requires
        date.wf(),
    ensures
        r@ == envi_file_name_of(product, date),
{
    let mut r = String::from_str(product.name());
    r.append("_");
    append_padded(&mut r, date.year as u64, 4);
    append_padded(&mut r, date.month as u64, 2);
    append_padded(&mut r, date.day as u64, 2);
    r.append(".dat");
    assert(r@ =~= envi_file_name_of(product, date));
    r
}

} // verus!
