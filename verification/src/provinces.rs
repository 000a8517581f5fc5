//! Province definitions (`map/definition.csv`): one province per line,
//! `ID;R;G;B;Terrain;IsCoastal;ProvinceType;Continent`.
use vstd::prelude::*;
use crate::csv::split_on;
use crate::numtext::{digits_value, all_digits, lower_seq};
use crate::text::{is_digit, lines_of, bounds_text, line_bounds, chars_of, push_range};


verus! {

#[derive(Debug)]
pub struct Province {
    pub id: u32,
    pub rgb: (u8, u8, u8),
    pub terrain: String,
    pub is_coastal: bool,
    pub prov_type: String,
    pub continent: u32,
}

impl Clone for Province {
    fn clone(&self) -> (r: Province)
        ensures
            province_model(r) == province_model(*self),
    {
        Province {
            id: self.id,
            rgb: self.rgb,
            terrain: self.terrain.clone(),
            is_coastal: self.is_coastal,
            prov_type: self.prov_type.clone(),
            continent: self.continent,
        }
    }
}

pub struct ProvinceModel {
    pub id: u32,
    pub rgb: (u8, u8, u8),
    pub terrain: Seq<char>,
    pub is_coastal: bool,
    pub prov_type: Seq<char>,
    pub continent: u32,
}

pub open spec fn province_model(p: Province) -> ProvinceModel {
    ProvinceModel {
        id: p.id,
        rgb: p.rgb,
        terrain: p.terrain@,
        is_coastal: p.is_coastal,
        prov_type: p.prov_type@,
        continent: p.continent,
    }
}

pub open spec fn provinces_model(v: Seq<Province>) -> Seq<ProvinceModel> {
    v.map_values(|p: Province| province_model(p))
}

/// An unsigned integer no larger than `max`, as Rust's integer parsing reads
/// it: an optional `+` and at least one ASCII digit, nothing else.
pub open spec fn parse_uint(t: Seq<char>, max: int) -> Option<int> {
    let d = if t.len() > 0 && t[0] == '+' { t.drop_first() } else { t };
    if d.len() > 0 && all_digits(d) && digits_value(d) <= max {
        Some(digits_value(d) as int)
    } else {
        None
    }
}

pub open spec fn uint_or_zero(t: Seq<char>, max: int) -> int {
    match parse_uint(t, max) {
        Some(v) => v,
        None => 0,
    }
}

/// The province of a definition line: with all eight fields, the colour,
/// terrain, coastal flag (`true` in any case), type and continent (numbers
/// that do not parse read as 0); with fewer, only the id.  None when the id
/// does not parse.
pub open spec fn province_line(l: Seq<char>) -> Option<ProvinceModel> {
    let parts = split_on(l, ';');
    match parse_uint(parts[0], u32::MAX as int) {
        Some(id) => if parts.len() >= 8 {
            Some(ProvinceModel {
                id: id as u32,
                rgb: (
                    uint_or_zero(parts[1], 255) as u8,
                    uint_or_zero(parts[2], 255) as u8,
                    uint_or_zero(parts[3], 255) as u8,
                ),
                terrain: parts[4],
                is_coastal: lower_seq(parts[5]) == "true"@,
                prov_type: parts[6],
                continent: uint_or_zero(parts[7], u32::MAX as int) as u32,
            })
        } else {
            Some(ProvinceModel {
                id: id as u32,
                rgb: (0, 0, 0),
                terrain: Seq::empty(),
                is_coastal: false,
                prov_type: Seq::empty(),
                continent: 0,
            })
        },
        None => None,
    }
}

/// Index of the province with id `id` in `m`, from `i` on.
pub open spec fn province_index(m: Seq<ProvinceModel>, id: u32, i: int) -> Option<int>
    decreases m.len() - i,
{
    if 0 <= i < m.len() {
        if m[i].id == id {
            Some(i)
        } else {
            province_index(m, id, i + 1)
        }
    } else {
        None
    }
}

/// The provinces of lines `0..j`, a later line replacing an earlier one
/// with the same id.
pub open spec fn provinces_upto(ls: Seq<Seq<char>>, j: int) -> Seq<ProvinceModel>
    decreases j,
{
    if j <= 0 {
        Seq::empty()
    } else {
        let m = provinces_upto(ls, j - 1);
        match province_line(ls[j - 1]) {
            Some(p) => match province_index(m, p.id, 0) {
                Some(i) => m.update(i, p),
                None => m.push(p),
            },
            None => m,
        }
    }
}

/// Parses `cs[a..b]` as an unsigned integer no larger than `max`.
fn parse_uint_in(cs: &Vec<char>, a: usize, b: usize, max: u32) -> (r: Option<u32>)
    requires
        a <= b <= cs@.len(),
    ensures
        match parse_uint(cs@.subrange(a as int, b as int), max as int) {
            Some(v) => r == Some(v as u32),
            None => r is None,
        },
{
    let ghost t = cs@.subrange(a as int, b as int);
    let start = if a < b && cs[a] == '+' { a + 1 } else { a };
    let ghost d = cs@.subrange(start as int, b as int);
    assert(d =~= (if t.len() > 0 && t[0] == '+' { t.drop_first() } else { t }));
    if start == b {
        return None;
    }
    let mut v: u32 = 0;
    let mut k = start;
    while k < b
        invariant
            start <= k <= b <= cs@.len(),
            d == cs@.subrange(start as int, b as int),
            t == cs@.subrange(a as int, b as int),
            d == (if t.len() > 0 && t[0] == '+' { t.drop_first() } else { t }),
            all_digits(cs@.subrange(start as int, k as int)),
            v == digits_value(cs@.subrange(start as int, k as int)),
            v <= max,
        decreases b - k,
    {
        let c = cs[k];
        if !('0' <= c && c <= '9') {
            assert(!is_digit(d[k - start]));
            return None;
        }
        let digit = (c as u32) - ('0' as u32);
        let ghost prefix = cs@.subrange(start as int, k + 1);
        assert(prefix.drop_last() =~= cs@.subrange(start as int, k as int));
        assert(digits_value(prefix) == v * 10 + digit);
        let next: u64 = (v as u64) * 10 + (digit as u64);
        if next > max as u64 {
            // The prefix read so far already exceeds `max`; so does the whole.
            proof {
                crate::numtext::lemma_digits_append(prefix, cs@.subrange(k + 1, b as int));
                assert(prefix + cs@.subrange(k + 1, b as int) =~= d);
                crate::numtext::lemma_pow10_positive((b - (k + 1)) as nat);
                assert(digits_value(d) >= digits_value(prefix)) by (nonlinear_arith)
                    requires
                        digits_value(d) == digits_value(prefix) * crate::numtext::pow10((b - (k + 1)) as nat)
                            + digits_value(cs@.subrange(k + 1, b as int)),
                        crate::numtext::pow10((b - (k + 1)) as nat) >= 1,
                {
                }
            }
            return None;
        }
        v = next as u32;
        k += 1;
    }
    assert(cs@.subrange(start as int, k as int) =~= d);
    Some(v)
}

} // verus!

verus! {

fn uint_field(cs: &Vec<char>, part: (usize, usize), max: u32) -> (r: u32)
    requires
        part.0 <= part.1 <= cs@.len(),
    ensures
        r == uint_or_zero(cs@.subrange(part.0 as int, part.1 as int), max as int),
        r <= max,
{
    match parse_uint_in(cs, part.0, part.1, max) {
        Some(v) => v,
        None => 0,
    }
}

/// Parses one line of a province definition file.
pub fn parse_province_line(line: &str) -> (r: Option<Province>)
    ensures
        match province_line(line@) {
            Some(p) => r matches Some(q) && province_model(q) == p,
            None => r is None,
        },
{
    let cs = chars_of(line);
    let parts = crate::csv::split_bounds(&cs, 0, cs.len(), ';');
    let ghost ps = bounds_text(cs@, parts@);
    assert(cs@.subrange(0, cs@.len() as int) =~= line@);
    assert(ps.len() >= 1);
    assert(ps[0] == cs@.subrange(parts@[0].0 as int, parts@[0].1 as int));
    let id = match parse_uint_in(&cs, parts[0].0, parts[0].1, u32::MAX) {
        Some(x) => x,
        None => {
            return None;
        },
    };
    if parts.len() >= 8 {
        assert(ps[1] == cs@.subrange(parts@[1].0 as int, parts@[1].1 as int));
        assert(ps[2] == cs@.subrange(parts@[2].0 as int, parts@[2].1 as int));
        assert(ps[3] == cs@.subrange(parts@[3].0 as int, parts@[3].1 as int));
        assert(ps[4] == cs@.subrange(parts@[4].0 as int, parts@[4].1 as int));
        assert(ps[5] == cs@.subrange(parts@[5].0 as int, parts@[5].1 as int));
        assert(ps[6] == cs@.subrange(parts@[6].0 as int, parts@[6].1 as int));
        assert(ps[7] == cs@.subrange(parts@[7].0 as int, parts@[7].1 as int));
        let r = uint_field(&cs, parts[1], 255) as u8;
        let g = uint_field(&cs, parts[2], 255) as u8;
        let b = uint_field(&cs, parts[3], 255) as u8;
        let mut terrain = String::new();
        push_range(&mut terrain, &cs, parts[4].0, parts[4].1);
        let coastal = crate::text::slice_chars(&cs, parts[5].0, parts[5].1);
        let is_coastal = crate::rules::spells(&crate::rules::lower_chars(&coastal), "true");
        let mut prov_type = String::new();
        push_range(&mut prov_type, &cs, parts[6].0, parts[6].1);
        let continent = uint_field(&cs, parts[7], u32::MAX);
        Some(Province { id, rgb: (r, g, b), terrain, is_coastal, prov_type, continent })
    } else {
        let p = Province {
            id,
            rgb: (0, 0, 0),
            terrain: String::new(),
            is_coastal: false,
            prov_type: String::new(),
            continent: 0,
        };
        assert(province_model(p).terrain =~= Seq::<char>::empty());
        Some(p)
    }
}

/// Reads a province definition file: one province per line whose id
/// parses, a later line replacing an earlier one with the same id.
pub fn parse_province_definitions(content: &str) -> (r: Vec<Province>)
    ensures
        provinces_model(r@) == provinces_upto(lines_of(content@), lines_of(content@).len() as int),
{
    let cs = chars_of(content);
    let lines = line_bounds(&cs);
    let ghost ls = lines_of(cs@);
    let mut provinces: Vec<Province> = Vec::new();
    assert(provinces_model(provinces@) =~= Seq::<ProvinceModel>::empty());
    let mut j: usize = 0;
    while j < lines.len()
        invariant
            j <= lines@.len(),
            bounds_text(cs@, lines@) == ls,
            ls == lines_of(cs@),
            cs@ == content@,
            forall|i: int| 0 <= i < lines@.len() ==> #[trigger] lines@[i].0 <= lines@[i].1 <= cs@.len(),
            provinces_model(provinces@) == provinces_upto(ls, j as int),
        decreases lines.len() - j,
    {
        let (a, b) = lines[j];
        assert(ls[j as int] == cs@.subrange(a as int, b as int));
        let mut line = String::new();
        push_range(&mut line, &cs, a, b);
        if let Some(p) = parse_province_line(line.as_str()) {
            let ghost m = provinces_model(provinces@);
            let ghost pm = province_model(p);
            let mut i: usize = 0;
            let mut found = false;
            while i < provinces.len() && !found
                invariant
                    i <= provinces@.len(),
                    m == provinces_model(provinces@),
                    !found ==> province_index(m, p.id, 0) == province_index(m, p.id, i as int),
                    found ==> province_index(m, p.id, 0) == Some((i - 1) as int) && i >= 1,
                decreases provinces.len() - i + if found { 0int } else { 1int },
            {
                if provinces[i].id == p.id {
                    found = true;
                }
                i += 1;
            }
            if found {
                provinces.set(i - 1, p);
                assert(provinces_model(provinces@) =~= m.update(i - 1, pm));
            } else {
                provinces.push(p);
                assert(provinces_model(provinces@) =~= m.push(pm));
            }
        }
        j += 1;
    }
    provinces
}

} // verus!

verus! {

/// `c` is the word `true` in any mix of upper and lower case.
pub open spec fn spells_true_any_case(c: Seq<char>) -> bool {
    &&& c.len() == 4
    &&& (c[0] == 't' || c[0] == 'T')
    &&& (c[1] == 'r' || c[1] == 'R')
    &&& (c[2] == 'u' || c[2] == 'U')
    &&& (c[3] == 'e' || c[3] == 'E')
}

proof fn lemma_lower_is_true(c: Seq<char>)
    ensures
        (lower_seq(c) == "true"@) <==> spells_true_any_case(c),
{
    reveal_strlit("true");
    let l = lower_seq(c);
    if l == "true"@ {
        assert(l.len() == 4);
        assert(l[0] == 't' && l[1] == 'r' && l[2] == 'u' && l[3] == 'e');
        assert(l[0] == crate::numtext::ascii_lower(c[0]));
        assert(l[1] == crate::numtext::ascii_lower(c[1]));
        assert(l[2] == crate::numtext::ascii_lower(c[2]));
        assert(l[3] == crate::numtext::ascii_lower(c[3]));
    }
    if spells_true_any_case(c) {
        assert(l =~= "true"@);
    }
}

/// A full definition line gives a coastal province exactly when its sixth
/// field is `true` in any case (`true`, `TRUE`, `True`, …); a short line
/// never does.
pub proof fn law_coastal_flag_is_true_in_any_case(l: Seq<char>)
    ensures
        province_line(l) matches Some(p) ==> (p.is_coastal <==> split_on(l, ';').len() >= 8
            && spells_true_any_case(split_on(l, ';')[5])),
{
    let parts = split_on(l, ';');
    if parts.len() >= 8 {
        lemma_lower_is_true(parts[5]);
    }
}

} // verus!

verus! {

/// A full definition line gives the province its fifth field as terrain
/// and its seventh as type, verbatim.
pub proof fn law_terrain_and_type_are_fields_five_and_seven(l: Seq<char>)
    ensures
        province_line(l) matches Some(p) ==> (split_on(l, ';').len() >= 8 ==> p.terrain == split_on(l, ';')[4]
            && p.prov_type == split_on(l, ';')[6]),
{
}

} // verus!
