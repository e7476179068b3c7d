//! The SNODAS product registry, grid geometry and file naming.
use vstd::prelude::*;
use crate::calendar::{precedes, valid_ymd, CalendarDate};
use crate::text::{
    all_digits, append_padded, chars_of, digit_run, digits_value, find, find_char, find_digit, first_digit, has_infix,
    has_suffix, index_of, padded_digits, parse_digits, parse_u32, skip_digits, std_u32_value, trim,
    trimmed, contains, ends_with, first_occurrence, lemma_first_occurrence, lemma_short_digits_bound, slice,
    starts_with,
};

verus! {

/// Columns of the masked SNODAS grid.
pub const MASKED_COLS: u32 = 6935;

/// Rows of the masked SNODAS grid.
pub const MASKED_ROWS: u32 = 3351;

/// Sentinel for a cell without data.
pub const NODATA_VALUE: i16 = -9999;

/// A SNODAS product.
#[derive(Debug, Clone, Copy, PartialEq, Eq, Hash, Structural)]
pub enum ProductId {
    Swe,
    SnowDepth,
    SnowMeltRunoff,
    Sublimation,
    SublimationBlowing,
    Precipitation,
    SnowpackAverageTemp,
}

/// The product of a SNODAS product code.
pub open spec fn product_of_code(code: u32) -> Option<ProductId> {
    if code == 1034 {
        Some(ProductId::Swe)
    } else if code == 1036 {
        Some(ProductId::SnowDepth)
    } else if code == 1044 {
        Some(ProductId::SnowMeltRunoff)
    } else if code == 1050 {
        Some(ProductId::Sublimation)
    } else if code == 1039 {
        Some(ProductId::SublimationBlowing)
    } else if code == 1025 {
        Some(ProductId::Precipitation)
    } else if code == 1038 {
        Some(ProductId::SnowpackAverageTemp)
    } else {
        None
    }
}

/// The SNODAS product code of a product.
pub open spec fn code_of(p: ProductId) -> u32 {
    match p {
        ProductId::Swe => 1034,
        ProductId::SnowDepth => 1036,
        ProductId::SnowMeltRunoff => 1044,
        ProductId::Sublimation => 1050,
        ProductId::SublimationBlowing => 1039,
        ProductId::Precipitation => 1025,
        ProductId::SnowpackAverageTemp => 1038,
    }
}

/// The short name of a product.
pub open spec fn name_of(p: ProductId) -> Seq<char> {
    match p {
        ProductId::Swe => "swe"@,
        ProductId::SnowDepth => "snow_depth"@,
        ProductId::SnowMeltRunoff => "snow_melt_runoff"@,
        ProductId::Sublimation => "sublimation"@,
        ProductId::SublimationBlowing => "sublimation_blowing"@,
        ProductId::Precipitation => "precipitation"@,
        ProductId::SnowpackAverageTemp => "snowpack_avg_temp"@,
    }
}

impl ProductId {
    /// The product of a code, if the code is one of SNODAS's.
    pub fn from_code(code: u32) -> (r: Option<ProductId>)
        ensures
            r == product_of_code(code),
    {
        if code == 1034 {
            Some(ProductId::Swe)
        } else if code == 1036 {
            Some(ProductId::SnowDepth)
        } else if code == 1044 {
            Some(ProductId::SnowMeltRunoff)
        } else if code == 1050 {
            Some(ProductId::Sublimation)
        } else if code == 1039 {
            Some(ProductId::SublimationBlowing)
        } else if code == 1025 {
            Some(ProductId::Precipitation)
        } else if code == 1038 {
            Some(ProductId::SnowpackAverageTemp)
        } else {
            None
        }
    }

    /// The product's SNODAS code.
    pub fn code(&self) -> (r: u32)
        ensures
            r == code_of(*self),
            product_of_code(r) == Some(*self),
    {
        match self {
            ProductId::Swe => 1034,
            ProductId::SnowDepth => 1036,
            ProductId::SnowMeltRunoff => 1044,
            ProductId::Sublimation => 1050,
            ProductId::SublimationBlowing => 1039,
            ProductId::Precipitation => 1025,
            ProductId::SnowpackAverageTemp => 1038,
        }
    }

    /// The product's short name.
    pub fn name(&self) -> (r: &'static str)
        ensures
            r@ == name_of(*self),
    {
        match self {
            ProductId::Swe => "swe",
            ProductId::SnowDepth => "snow_depth",
            ProductId::SnowMeltRunoff => "snow_melt_runoff",
            ProductId::Sublimation => "sublimation",
            ProductId::SublimationBlowing => "sublimation_blowing",
            ProductId::Precipitation => "precipitation",
            ProductId::SnowpackAverageTemp => "snowpack_avg_temp",
        }
    }
}

/// Subdivisions of a degree in which the edges of both grids are exact.
pub const BBOX_UNITS_PER_DEGREE: i64 = 600000;

/// Geographic edges of the grid, in units of 1/600000 degree.
#[derive(Debug, Clone, Copy, PartialEq, Eq, Structural)]
pub struct BoundingBox {
    pub west: i64,
    pub east: i64,
    pub north: i64,
    pub south: i64,
}

/// The grid's edges before 2013-10-01.
pub open spec fn bbox_pre_2013_spec() -> BoundingBox {
    BoundingBox { west: -74_840_250i64, east: -40_165_248i64, north: 31_724_748i64, south: 14_969_748i64 }
}

/// The grid's edges from 2013-10-01 on.
pub open spec fn bbox_post_2013_spec() -> BoundingBox {
    BoundingBox { west: -74_840_000i64, east: -40_165_000i64, north: 31_725_000i64, south: 14_970_000i64 }
}

/// The grid's edges before 2013-10-01.
pub fn bbox_pre_2013() -> (b: BoundingBox)
    ensures
        b == bbox_pre_2013_spec(),
{
    BoundingBox { west: -74_840_250, east: -40_165_248, north: 31_724_748, south: 14_969_748 }
}

/// The grid's edges from 2013-10-01 on.
pub fn bbox_post_2013() -> (b: BoundingBox)
    ensures
        b == bbox_post_2013_spec(),
{
    BoundingBox { west: -74_840_000, east: -40_165_000, north: 31_725_000, south: 14_970_000 }
}

/// The grid's edges on a date: the grid shifted on 2013-10-01.
pub fn get_bbox_for_date(date: CalendarDate) -> (b: BoundingBox)
    ensures
        b == if precedes(date, CalendarDate { year: 2013, month: 10, day: 1 }) {
            bbox_pre_2013_spec()
        } else {
            bbox_post_2013_spec()
        },
{
    let shift = CalendarDate { year: 2013, month: 10, day: 1 };
    if date.is_before(&shift) {
        bbox_pre_2013()
    } else {
        bbox_post_2013()
    }
}

/// The fields of a comma-separated list, empty ones included.
pub open spec fn comma_fields(s: Seq<char>) -> Seq<Seq<char>>
    decreases s.len(),
{
    if s.len() == 0 {
        seq![Seq::empty()]
    } else {
        let init = comma_fields(s.drop_last());
        if s.last() == ',' {
            init.push(Seq::empty())
        } else {
            init.update(init.len() - 1, init.last().push(s.last()))
        }
    }
}

/// The product a field of a product list names: its code, white space
/// trimmed, when that code is one of SNODAS's.
pub open spec fn product_of_field(f: Seq<char>) -> Option<ProductId> {
    match std_u32_value(trimmed(f)) {
        Some(code) => product_of_code(code),
        None => None,
    }
}

/// The products that a list of fields names, in order; other fields are
/// skipped.
pub open spec fn products_of_fields(fs: Seq<Seq<char>>) -> Seq<ProductId>
    decreases fs.len(),
{
    if fs.len() == 0 {
        Seq::empty()
    } else {
        let init = products_of_fields(fs.drop_last());
        match product_of_field(fs.last()) {
            Some(p) => init.push(p),
            None => init,
        }
    }
}

/// The products of a comma-separated list of product codes, such as
/// `"1034, 1036"`, in order; fields that are not a known code are skipped.
pub fn parse_product_ids(input: &str) -> (r: Vec<ProductId>)
    ensures
        r@ == products_of_fields(comma_fields(input@)),
{
    let cs = chars_of(input);
    let n = cs.len();
    let mut out: Vec<ProductId> = Vec::new();
    let ghost mut done: Seq<Seq<char>> = Seq::empty();
    let mut a: usize = 0;
    let mut i: usize = 0;
    proof {
        assert(input@.subrange(0, 0) =~= Seq::<char>::empty());
        assert(comma_fields(Seq::<char>::empty()) =~= done.push(Seq::<char>::empty()));
    }
    while i < n
        invariant
            n == cs@.len(),
            cs@ == input@,
            a <= i <= n,
            comma_fields(input@.subrange(0, i as int)) == done.push(input@.subrange(a as int, i as int)),
            out@ == products_of_fields(done),
        decreases n - i,
    {
        let ghost sub = input@.subrange(0, i + 1);
        assert(sub.drop_last() =~= input@.subrange(0, i as int));
        if cs[i] == ',' {
            let field = input.substring_char(a, i);
            let p = ProductId::from_code_field(field);
            proof {
                assert(done.push(field@).drop_last() =~= done);
            }
            match p {
                Some(p) => out.push(p),
                None => {},
            }
            proof {
                done = done.push(field@);
                assert(input@.subrange(i + 1, i + 1) =~= Seq::<char>::empty());
            }
            a = i + 1;
        } else {
            proof {
                assert(input@.subrange(a as int, i + 1) =~= input@.subrange(a as int, i as int).push(cs@[i as int]));
                assert(done.push(input@.subrange(a as int, i as int)).update(done.len() as int, input@.subrange(a as int, i + 1)) =~= done.push(input@.subrange(a as int, i + 1)));
            }
        }
        i = i + 1;
    }
    let field = input.substring_char(a, n);
    let p = ProductId::from_code_field(field);
    proof {
        assert(input@.subrange(0, n as int) =~= input@);
        assert(done.push(field@).drop_last() =~= done);
    }
    match p {
        Some(p) => out.push(p),
        None => {},
    }
    out
}

impl ProductId {
    /// The product a field of a product list names.
    fn from_code_field(field: &str) -> (r: Option<ProductId>)
        ensures
            r == product_of_field(field@),
    {
        match parse_u32(trim(field)) {
            Some(code) => ProductId::from_code(code),
            None => None,
        }
    }
}

/// A SNODAS payload file: which product, for which day and hour, observed
/// or modelled.
#[derive(Debug, Clone)]
pub struct SnodasFile {
    pub date: CalendarDate,
    pub product_id: ProductId,
    pub filename: String,
    pub is_model: bool,
    pub hour: u8,
}

/// A payload name without its `.dat` or `.dat.gz` extension.
pub open spec fn payload_base(name: Seq<char>) -> Option<Seq<char>> {
    if has_suffix(name, ".dat.gz"@) {
        Some(name.subrange(0, name.len() - ".dat.gz"@.len()))
    } else if has_suffix(name, ".dat"@) {
        Some(name.subrange(0, name.len() - ".dat"@.len()))
    } else {
        None
    }
}

/// The second `_`-separated token of a payload base name.
pub open spec fn product_token(base: Seq<char>) -> Seq<char> {
    let i1 = index_of(base, '_');
    let rest = base.subrange(i1 + 1, base.len() as int);
    rest.subrange(0, index_of(rest, '_'))
}

/// The first run of digits of a product token.
pub open spec fn code_digits(token: Seq<char>) -> Seq<char> {
    let a = first_digit(token);
    token.subrange(a, a + digit_run(token.subrange(a, token.len() as int)))
}

/// The product a payload base names: the low four digits of the first run of
/// digits in its product token.
pub open spec fn payload_product(base: Seq<char>) -> Option<ProductId> {
    match std_u32_value(code_digits(product_token(base))) {
        Some(code) => product_of_code(code % 10000),
        None => None,
    }
}

/// The value of the `w` digits of `s` at `at`, if they are all digits.
pub open spec fn digits_at(s: Seq<char>, at: int, w: int) -> Option<nat> {
    if all_digits(s.subrange(at, at + w)) {
        Some(digits_value(s.subrange(at, at + w)))
    } else {
        None
    }
}

/// What a payload name decodes to: product, date, hour and whether the data
/// is modelled. The name is `us_<token>_…TTNATS<YYYYMMDDHH>…`, with the
/// extension `.dat` or `.dat.gz`; the token's first run of digits gives the
/// product and an `Sl` in it marks modelled data.
pub open spec fn decode_payload(name: Seq<char>) -> Option<(ProductId, CalendarDate, u8, bool)> {
    match payload_base(name) {
        None => None,
        Some(base) => match (decode_product(base), decode_stamp(base)) {
            (Some((p, model)), Some((date, hour))) => Some((p, date, hour, model)),
            _ => None,
        },
    }
}

/// The `w` digits of `s` at `at`, if they are all digits.
fn read_digits_at(s: &Vec<char>, at: usize, w: usize) -> (r: Option<u64>)
    requires
        at + w <= s@.len(),
        w <= 4,
    ensures
        match r {
            Some(v) => digits_at(s@, at as int, w as int) == Some(v as nat) && v < 10000 && (w <= 2 ==> v < 100),
            None => digits_at(s@, at as int, w as int) is None,
        },
{
    let r = parse_digits(s, at, w);
    proof {
        if r is Some {
            lemma_short_digits_bound(s@.subrange(at as int, at + w));
        }
    }
    r
}

/// The product of a payload base name, and whether it is modelled, when the
/// region token is `us` and the product token carries a known code.
pub open spec fn decode_product(base: Seq<char>) -> Option<(ProductId, bool)> {
    let i1 = index_of(base, '_');
    if i1 >= base.len() || base.subrange(0, i1) != "us"@ || payload_product(base) is None {
        None
    } else {
        Some((payload_product(base)->0, has_infix(product_token(base), "Sl"@)))
    }
}

/// The date and hour stamped after `TTNATS` in a payload base name.
pub open spec fn decode_stamp(base: Seq<char>) -> Option<(CalendarDate, u8)> {
    if !has_infix(base, "TTNATS"@) {
        None
    } else {
        let ds = first_occurrence(base, "TTNATS"@) + "TTNATS"@.len();
        if ds + 10 > base.len() {
            None
        } else {
            let y = digits_at(base, ds, 4);
            let m = digits_at(base, ds + 4, 2);
            let d = digits_at(base, ds + 6, 2);
            let h = digits_at(base, ds + 8, 2);
            if y is None || m is None || d is None || h is None || !valid_ymd(y->0 as int, m->0 as int, d->0 as int) {
                None
            } else {
                Some((CalendarDate { year: y->0 as i32, month: m->0 as u32, day: d->0 as u32 }, h->0 as u8))
            }
        }
    }
}

/// Reads the product of a payload base name, a prefix of `name`.
fn read_product(name: &str, base: &Vec<char>) -> (r: Option<(ProductId, bool)>)
    requires
        base@.len() <= name@.len(),
        base@ == name@.subrange(0, base@.len() as int),
    ensures
        r == decode_product(base@),
{
    proof {
        reveal_strlit("us");
    }
    let blen = base.len();
    let ghost b = base@;
    let i1 = find_char(base, 0, '_');
    assert(base@.subrange(0, base@.len() as int) =~= base@);
    if i1 >= blen {
        return None;
    }
    let region = slice(base, 0, i1);
    if !(region.len() == 2 && starts_with(&region, "us")) {
        proof {
            if b.subrange(0, i1 as int) == "us"@ {
                assert(region@ == "us"@);
                assert(region@.subrange(0, 2) =~= region@);
            }
        }
        return None;
    }
    assert(region@.subrange(0, 2) =~= region@);
    let i2 = find_char(base, i1 + 1, '_');
    let token = slice(base, i1 + 1, i2);
    proof {
        let rest = b.subrange(i1 + 1, b.len() as int);
        assert(rest.subrange(0, index_of(rest, '_')) =~= token@);
        assert(product_token(b) == token@);
    }
    let a = find_digit(&token, 0);
    let e = skip_digits(&token, a);
    assert(token@.subrange(0, token@.len() as int) =~= token@);
    let digits = name.substring_char(i1 + 1 + a, i1 + 1 + e);
    proof {
        assert(digits@ =~= token@.subrange(a as int, e as int));
        assert(code_digits(token@) == digits@);
    }
    let code = match parse_u32(digits) {
        Some(c) => c,
        None => return None,
    };
    let product_id = match ProductId::from_code(code % 10000) {
        Some(p) => p,
        None => return None,
    };
    let is_model = contains(&token, "Sl");
    Some((product_id, is_model))
}

/// Reads the date and hour stamped after `TTNATS` in a payload base name.
fn read_stamp(base: &Vec<char>) -> (r: Option<(CalendarDate, u8)>)
    ensures
        r == decode_stamp(base@),
{
    proof {
        reveal_strlit("TTNATS");
    }
    let blen = base.len();
    let p = match find(base, "TTNATS") {
        Some(p) => p,
        None => return None,
    };
    proof {
        lemma_first_occurrence(base@, "TTNATS"@, p as int);
    }
    let ds = p + 6;
    if blen < 10 || ds > blen - 10 {
        return None;
    }
    let year = match read_digits_at(base, ds, 4) {
        Some(v) => v,
        None => return None,
    };
    let month = match read_digits_at(base, ds + 4, 2) {
        Some(v) => v,
        None => return None,
    };
    let day = match read_digits_at(base, ds + 6, 2) {
        Some(v) => v,
        None => return None,
    };
    let hour = match read_digits_at(base, ds + 8, 2) {
        Some(v) => v,
        None => return None,
    };
    match CalendarDate::from_ymd_opt(year as i32, month as u32, day as u32) {
        Some(d) => Some((d, hour as u8)),
        None => None,
    }
}

impl SnodasFile {
    /// Decodes a SNODAS payload name such as
    /// `us_ssmv11034tS__T0001TTNATS2023120105HP001.dat.gz`; `None` for any
    /// other name.
    pub fn parse_filename(filename: &str) -> (r: Option<SnodasFile>)
        ensures
            match r {
                Some(f) => decode_payload(filename@) == Some((f.product_id, f.date, f.hour, f.is_model))
                    && f.filename@ == filename@,
                None => decode_payload(filename@) is None,
            },
    {
        proof {
            reveal_strlit(".dat.gz");
            reveal_strlit(".dat");
        }
        let cs = chars_of(filename);
        let blen: usize = if ends_with(&cs, ".dat.gz") {
            cs.len() - 7
        } else if ends_with(&cs, ".dat") {
            cs.len() - 4
        } else {
            return None;
        };
        let base = slice(&cs, 0, blen);
        assert(payload_base(filename@) == Some(base@));
        let (product_id, is_model) = match read_product(filename, &base) {
            Some(x) => x,
            None => return None,
        };
        let (date, hour) = match read_stamp(&base) {
            Some(x) => x,
            None => return None,
        };
        Some(SnodasFile { date, product_id, filename: String::from_str(filename), is_model, hour })
    }
}

/// A date as `YYYYMMDD`.
pub open spec fn ymd_text(d: CalendarDate) -> Seq<char> {
    padded_digits(d.year as nat, 4) + padded_digits(d.month as nat, 2) + padded_digits(d.day as nat, 2)
}

/// The English abbreviation of month `m`.
pub open spec fn month_abbrev(m: u32) -> Seq<char> {
    if m == 1 {
        "Jan"@
    } else if m == 2 {
        "Feb"@
    } else if m == 3 {
        "Mar"@
    } else if m == 4 {
        "Apr"@
    } else if m == 5 {
        "May"@
    } else if m == 6 {
        "Jun"@
    } else if m == 7 {
        "Jul"@
    } else if m == 8 {
        "Aug"@
    } else if m == 9 {
        "Sep"@
    } else if m == 10 {
        "Oct"@
    } else if m == 11 {
        "Nov"@
    } else {
        "Dec"@
    }
}

fn month_abbrev_str(m: u32) -> (r: &'static str)
    ensures
        r@ == month_abbrev(m),
{
    if m == 1 {
        "Jan"
    } else if m == 2 {
        "Feb"
    } else if m == 3 {
        "Mar"
    } else if m == 4 {
        "Apr"
    } else if m == 5 {
        "May"
    } else if m == 6 {
        "Jun"
    } else if m == 7 {
        "Jul"
    } else if m == 8 {
        "Aug"
    } else if m == 9 {
        "Sep"
    } else if m == 10 {
        "Oct"
    } else if m == 11 {
        "Nov"
    } else {
        "Dec"
    }
}

/// Appends a date as `YYYYMMDD`.
fn push_ymd(out: &mut String, d: CalendarDate)
    requires
        d.year >= 0,
    ensures
        final(out)@ == old(out)@ + ymd_text(d),
{
    append_padded(out, d.year as u64, 4);
    append_padded(out, d.month as u64, 2);
    append_padded(out, d.day as u64, 2);
    assert(final(out)@ =~= old(out)@ + ymd_text(d));
}

/// The archive URL of a day at NSIDC.
pub open spec fn nsidc_url_of(d: CalendarDate) -> Seq<char> {
    "https://noaadata.apps.nsidc.org/NOAA/G02158/masked/"@ + padded_digits(d.year as nat, 4) + "/"@
        + padded_digits(d.month as nat, 2) + "_"@ + month_abbrev(d.month) + "/SNODAS_"@ + ymd_text(d) + ".tar"@
}

/// The archive URL of a day at NSIDC, for example
/// `.../masked/2023/12_Dec/SNODAS_20231215.tar`.
pub fn build_nsidc_url(date: CalendarDate) -> (r: String)
    requires
        date.wf(),
    ensures
        r@ == nsidc_url_of(date),
{
    let mut r = String::from_str("https://noaadata.apps.nsidc.org/NOAA/G02158/masked/");
    append_padded(&mut r, date.year as u64, 4);
    r.append("/");
    append_padded(&mut r, date.month as u64, 2);
    r.append("_");
    r.append(month_abbrev_str(date.month));
    r.append("/SNODAS_");
    push_ymd(&mut r, date);
    r.append(".tar");
    assert(r@ =~= nsidc_url_of(date));
    r
}

/// The COG name of a payload: `snodas_<product>_YYYYMMDD.tif`.
pub open spec fn output_filename_of(f: SnodasFile) -> Seq<char> {
    "snodas_"@ + name_of(f.product_id) + "_"@ + ymd_text(f.date) + ".tif"@
}

impl SnodasFile {
    /// The name of the COG made from this payload.
    pub fn output_filename(&self) -> (r: String)
        requires
            self.date.wf(),
        ensures
            r@ == output_filename_of(*self),
    {
        let mut r = String::from_str("snodas_");
        r.append(self.product_id.name());
        r.append("_");
        push_ymd(&mut r, self.date);
        r.append(".tif");
        assert(r@ =~= output_filename_of(*self));
        r
    }
}

} // verus!
