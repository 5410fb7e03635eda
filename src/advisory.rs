//! What the scanner reads from its input documents: the source files an
//! advisory names, the advisory identifiers of a summary, and the component
//! references of an SBOM.
use vstd::prelude::*;
use crate::text::{chars_of, string_of, strs_of, append_chars, copy_chars};
use crate::json::{JsonValue, json_get, get_opt, json_array, json_str, json_u64};
use crate::order::{strictly_sorted, sorted_unique};
use crate::matcher::same_chars;
use crate::error::KcfgVexError;

verus! {

/// `s` without any number of leading `./`.
pub open spec fn strip_dot_slash(s: Seq<char>) -> Seq<char>
    decreases s.len(),
{
    if s.len() >= 2 && s[0] == '.' && s[1] == '/' {
        strip_dot_slash(s.subrange(2, s.len() as int))
    } else {
        s
    }
}

/// The strings among `items`, each without its leading `./`.
pub open spec fn file_strings(items: Seq<JsonValue>) -> Seq<Seq<char>>
    decreases items.len(),
{
    if items.len() == 0 {
        Seq::empty()
    } else {
        file_strings(items.drop_last()) + match items.last() {
            JsonValue::Str(s) => seq![strip_dot_slash(s@)],
            _ => Seq::empty(),
        }
    }
}

/// The program files of each entry of `affected`, in order.
pub open spec fn affected_files(affected: Seq<JsonValue>) -> Seq<Seq<char>>
    decreases affected.len(),
{
    if affected.len() == 0 {
        Seq::empty()
    } else {
        affected_files(affected.drop_last()) + match json_array(
            json_get(affected.last(), "programFiles"@),
        ) {
            Some(items) => file_strings(items),
            None => Seq::empty(),
        }
    }
}

/// The entries of `containers.cna.affected`, if that path leads to an array.
pub open spec fn affected_entries(cve: JsonValue) -> Option<Seq<JsonValue>> {
    json_array(get_opt(get_opt(json_get(cve, "containers"@), "cna"@), "affected"@))
}

/// Every `containers.cna.affected[*].programFiles[*]` string of an advisory.
pub open spec fn program_files(cve: JsonValue) -> Seq<Seq<char>> {
    match affected_entries(cve) {
        Some(affected) => affected_files(affected),
        None => Seq::empty(),
    }
}

fn strip_dot_slash_exec(s: &String) -> (r: String)
    ensures
        r@ == strip_dot_slash(s@),
{
    let c = chars_of(s.as_str());
    let mut i: usize = 0;
    assert(c@.subrange(0, c@.len() as int) =~= c@);
    while c.len() - i >= 2 && c[i] == '.' && c[i + 1] == '/'
        invariant
            i <= c.len(),
            strip_dot_slash(c@) == strip_dot_slash(c@.subrange(i as int, c@.len() as int)),
        decreases c.len() - i,
    {
        assert(c@.subrange(i as int, c@.len() as int).subrange(2, c@.len() - i) =~= c@.subrange(
            i + 2,
            c@.len() as int,
        ));
        i = i + 2;
    }
    let mut out: Vec<char> = Vec::new();
    let mut j: usize = i;
    while j < c.len()
        invariant
            i <= j <= c.len(),
            out@ == c@.subrange(i as int, j as int),
        decreases c.len() - j,
    {
        out.push(c[j]);
        j = j + 1;
        assert(out@ =~= c@.subrange(i as int, j as int));
    }
    string_of(&out)
}

/// The source files an advisory names under `containers.cna.affected[*].programFiles`,
/// without leading `./`, sorted and without repetition.  A document of
/// another shape names none.
pub fn extract_program_files_from_cve(cve_data: &JsonValue) -> (r: Vec<String>)
    ensures
        strictly_sorted(strs_of(r@)),
        strs_of(r@).to_set() == program_files(*cve_data).to_set(),
{
    let mut files: Vec<String> = Vec::new();
    let ghost mut spec_files: Seq<Seq<char>> = Seq::empty();
    let affected_opt = match cve_data.get("containers") {
        Some(c) => match c.get("cna") {
            Some(cna) => match cna.get("affected") {
                Some(a) => a.as_array(),
                None => None,
            },
            None => None,
        },
        None => None,
    };
    match affected_opt {
        Some(affected) => {
            let mut i: usize = 0;
            while i < affected.len()
                invariant
                    i <= affected.len(),
                    affected_entries(*cve_data) == Some(affected@),
                    strs_of(files@) == affected_files(affected@.take(i as int)),
                decreases affected.len() - i,
            {
                let ghost pre = affected@.take(i + 1);
                assert(pre.drop_last() =~= affected@.take(i as int));
                assert(pre.last() == affected@[i as int]);
                let pf = match affected[i].get("programFiles") {
                    Some(p) => p.as_array(),
                    None => None,
                };
                match pf {
                    Some(items) => {
                        let ghost f0 = strs_of(files@);
                        let mut j: usize = 0;
                        while j < items.len()
                            invariant
                                j <= items.len(),
                                strs_of(files@) == f0 + file_strings(items@.take(j as int)),
                            decreases items.len() - j,
                        {
                            let ghost ipre = items@.take(j + 1);
                            assert(ipre.drop_last() =~= items@.take(j as int));
                            assert(ipre.last() == items@[j as int]);
                            match items[j].as_str() {
                                Some(s) => {
                                    let c = strip_dot_slash_exec(s);
                                    let ghost before = strs_of(files@);
                                    files.push(c);
                                    assert(strs_of(files@) =~= before.push(c@));
                                    assert(strs_of(files@) =~= f0 + file_strings(
                                        items@.take(j + 1),
                                    ));
                                },
                                None => {
                                    assert(strs_of(files@) =~= f0 + file_strings(
                                        items@.take(j + 1),
                                    ));
                                },
                            }
                            j = j + 1;
                        }
                        assert(items@.take(items.len() as int) =~= items@);
                    },
                    None => {
                        assert(strs_of(files@) =~= affected_files(affected@.take(i + 1)));
                    },
                }
                i = i + 1;
            }
            assert(affected@.take(affected.len() as int) =~= affected@);
        },
        None => {
            assert(strs_of(files@) =~= Seq::<Seq<char>>::empty());
        },
    }
    sorted_unique(&files)
}

/// `s` begins with `CVE-`.
pub open spec fn is_cve_id(s: Seq<char>) -> bool {
    s.len() >= 4 && s[0] == 'C' && s[1] == 'V' && s[2] == 'E' && s[3] == '-'
}

/// A package lists the `linux_kernel` product.
pub open spec fn is_kernel_package(package: JsonValue) -> bool {
    match json_array(json_get(package, "products"@)) {
        Some(products) => exists|i: int|
            0 <= i < products.len() && json_str(json_get(#[trigger] products[i], "product"@))
                == Some("linux_kernel"@),
        None => false,
    }
}

/// The `CVE-` identifiers among `issues` whose status is (`patched`) or is not
/// (`!patched`) `Patched`.
pub open spec fn issue_ids(issues: Seq<JsonValue>, patched: bool) -> Seq<Seq<char>>
    decreases issues.len(),
{
    if issues.len() == 0 {
        Seq::empty()
    } else {
        let issue = issues.last();
        issue_ids(issues.drop_last(), patched) + match json_str(json_get(issue, "id"@)) {
            Some(id) => if is_cve_id(id) && (json_str(json_get(issue, "status"@)) == Some(
                "Patched"@,
            )) == patched {
                seq![id]
            } else {
                Seq::empty()
            },
            None => Seq::empty(),
        }
    }
}

pub open spec fn package_ids(packages: Seq<JsonValue>, patched: bool) -> Seq<Seq<char>>
    decreases packages.len(),
{
    if packages.len() == 0 {
        Seq::empty()
    } else {
        let p = packages.last();
        package_ids(packages.drop_last(), patched) + if is_kernel_package(p) {
            match json_array(json_get(p, "issue"@)) {
                Some(issues) => issue_ids(issues, patched),
                None => Seq::empty(),
            }
        } else {
            Seq::empty()
        }
    }
}

/// The advisory identifiers of a summary's `linux_kernel` packages, patched or not.
pub open spec fn summary_ids(doc: JsonValue, patched: bool) -> Seq<Seq<char>> {
    match json_array(json_get(doc, "package"@)) {
        Some(packages) => package_ids(packages, patched),
        None => Seq::empty(),
    }
}

/// The advisories of a summary: those still to be traced and those patched.
#[derive(Debug)]
pub struct ExtractedCves {
    pub remaining_cves: Vec<String>,
    pub patched_cves: Vec<String>,
}

fn is_cve_id_exec(s: &String) -> (r: bool)
    ensures
        r == is_cve_id(s@),
{
    let c = chars_of(s.as_str());
    c.len() >= 4 && c[0] == 'C' && c[1] == 'V' && c[2] == 'E' && c[3] == '-'
}

fn is_kernel_package_exec(package: &JsonValue) -> (r: bool)
    ensures
        r == is_kernel_package(*package),
{
    let products = match package.get("products") {
        Some(p) => p.as_array(),
        None => None,
    };
    match products {
        Some(items) => {
            let lk = chars_of("linux_kernel");
            let mut i: usize = 0;
            while i < items.len()
                invariant
                    i <= items.len(),
                    lk@ == "linux_kernel"@,
                    json_array(json_get(*package, "products"@)) == Some(items@),
                    forall|k: int|
                        0 <= k < i ==> json_str(json_get(#[trigger] items@[k], "product"@))
                            != Some("linux_kernel"@),
                decreases items.len() - i,
            {
                let name = match items[i].get("product") {
                    Some(v) => v.as_str(),
                    None => None,
                };
                match name {
                    Some(n) => {
                        if same_chars(&chars_of(n.as_str()), &lk) {
                            assert(json_str(json_get(items@[i as int], "product"@)) == Some(
                                "linux_kernel"@,
                            ));
                            return true;
                        }
                    },
                    None => {},
                }
                i = i + 1;
            }
            false
        },
        None => false,
    }
}

/// Reads the advisory summary: of each package listing the `linux_kernel`
/// product, the issues whose id begins with `CVE-`.  Those with status
/// `Patched` are filed as patched, the others as remaining.  Both lists are
/// sorted and hold each id once.
pub fn extract_cve_ids_from_yocto(yocto_data: &JsonValue) -> (r: ExtractedCves)
    ensures
        strictly_sorted(strs_of(r.remaining_cves@)),
        strictly_sorted(strs_of(r.patched_cves@)),
        strs_of(r.remaining_cves@).to_set() == summary_ids(*yocto_data, false).to_set(),
        strs_of(r.patched_cves@).to_set() == summary_ids(*yocto_data, true).to_set(),
{
    let mut remaining: Vec<String> = Vec::new();
    let mut patched: Vec<String> = Vec::new();
    let packages = match yocto_data.get("package") {
        Some(p) => p.as_array(),
        None => None,
    };
    match packages {
        Some(pkgs) => {
            let pl = chars_of("Patched");
            let mut i: usize = 0;
            while i < pkgs.len()
                invariant
                    i <= pkgs.len(),
                    pl@ == "Patched"@,
                    json_array(json_get(*yocto_data, "package"@)) == Some(pkgs@),
                    strs_of(remaining@) == package_ids(pkgs@.take(i as int), false),
                    strs_of(patched@) == package_ids(pkgs@.take(i as int), true),
                decreases pkgs.len() - i,
            {
                let ghost pre = pkgs@.take(i + 1);
                assert(pre.drop_last() =~= pkgs@.take(i as int));
                assert(pre.last() == pkgs@[i as int]);
                let issues = if is_kernel_package_exec(&pkgs[i]) {
                    match pkgs[i].get("issue") {
                        Some(v) => v.as_array(),
                        None => None,
                    }
                } else {
                    None
                };
                let ghost remaining0 = strs_of(remaining@);
                let ghost patched0 = strs_of(patched@);
                match issues {
                    Some(items) => {
                        let mut j: usize = 0;
                        while j < items.len()
                            invariant
                                j <= items.len(),
                                pl@ == "Patched"@,
                                strs_of(remaining@) == remaining0 + issue_ids(items@.take(j as int), false),
                                strs_of(patched@) == patched0 + issue_ids(items@.take(j as int), true),
                            decreases items.len() - j,
                        {
                            let ghost ipre = items@.take(j + 1);
                            assert(ipre.drop_last() =~= items@.take(j as int));
                            assert(ipre.last() == items@[j as int]);
                            let id = match items[j].get("id") {
                                Some(v) => v.as_str(),
                                None => None,
                            };
                            match id {
                                Some(id) => {
                                    if is_cve_id_exec(id) {
                                        let status = match items[j].get("status") {
                                            Some(v) => v.as_str(),
                                            None => None,
                                        };
                                        let is_patched = match status {
                                            Some(st) => same_chars(&chars_of(st.as_str()), &pl),
                                            None => false,
                                        };
                                        let ghost before_r = strs_of(remaining@);
                                        let ghost before_p = strs_of(patched@);
                                        if is_patched {
                                            patched.push(id.clone());
                                            assert(strs_of(patched@) =~= before_p.push(id@));
                                            assert(strs_of(remaining@) =~= before_r);
                                        } else {
                                            remaining.push(id.clone());
                                            assert(strs_of(remaining@) =~= before_r.push(id@));
                                            assert(strs_of(patched@) =~= before_p);
                                        }
                                    }
                                },
                                None => {},
                            }
                            assert(strs_of(remaining@) =~= remaining0 + issue_ids(items@.take(j + 1), false));
                            assert(strs_of(patched@) =~= patched0 + issue_ids(items@.take(j + 1), true));
                            j = j + 1;
                        }
                        assert(items@.take(items.len() as int) =~= items@);
                    },
                    None => {},
                }
                assert(strs_of(remaining@) =~= package_ids(pkgs@.take(i + 1), false));
                assert(strs_of(patched@) =~= package_ids(pkgs@.take(i + 1), true));
                i = i + 1;
            }
            assert(pkgs@.take(pkgs.len() as int) =~= pkgs@);
        },
        None => {
            assert(strs_of(remaining@) =~= Seq::<Seq<char>>::empty());
            assert(strs_of(patched@) =~= Seq::<Seq<char>>::empty());
        },
    }
    ExtractedCves { remaining_cves: sorted_unique(&remaining), patched_cves: sorted_unique(&patched) }
}

pub open spec fn digit_char(d: int) -> char {
    if d == 0 {
        '0'
    } else if d == 1 {
        '1'
    } else if d == 2 {
        '2'
    } else if d == 3 {
        '3'
    } else if d == 4 {
        '4'
    } else if d == 5 {
        '5'
    } else if d == 6 {
        '6'
    } else if d == 7 {
        '7'
    } else if d == 8 {
        '8'
    } else {
        '9'
    }
}

/// The decimal digits of `n`.
pub open spec fn decimal(n: nat) -> Seq<char>
    decreases n,
{
    if n < 10 {
        seq![digit_char(n as int)]
    } else {
        decimal(n / 10).push(digit_char((n % 10) as int))
    }
}

fn digit_exec(d: u64) -> (r: char)
    requires
        d < 10,
    ensures
        r == digit_char(d as int),
{
    if d == 0 {
        '0'
    } else if d == 1 {
        '1'
    } else if d == 2 {
        '2'
    } else if d == 3 {
        '3'
    } else if d == 4 {
        '4'
    } else if d == 5 {
        '5'
    } else if d == 6 {
        '6'
    } else if d == 7 {
        '7'
    } else if d == 8 {
        '8'
    } else {
        '9'
    }
}

/// The decimal digits of `n`.
pub fn decimal_exec(n: u64) -> (r: Vec<char>)
    ensures
        r@ == decimal(n as nat),
    decreases n,
{
    if n < 10 {
        vec![digit_exec(n)]
    } else {
        let mut v = decimal_exec(n / 10);
        v.push(digit_exec(n % 10));
        v
    }
}

/// The part of `s` after its last `:` (all of `s` without one).
pub open spec fn last_segment(s: Seq<char>, end: int) -> Seq<char>
    decreases end,
{
    if end <= 0 || end > s.len() {
        s.subrange(0, s.len() as int)
    } else if s[end - 1] == ':' {
        s.subrange(end, s.len() as int)
    } else {
        last_segment(s, end - 1)
    }
}

/// The serial of an SBOM: the last `:`-separated part of `serialNumber`, or
/// `unknown` without one.
pub open spec fn sbom_serial(doc: JsonValue) -> Seq<char> {
    match json_str(json_get(doc, "serialNumber"@)) {
        Some(s) => if s.len() > 0 {
            last_segment(s, s.len() as int)
        } else {
            "unknown"@
        },
        None => "unknown"@,
    }
}

/// The SBOM's integer `version`, 1 without one.
pub open spec fn sbom_version(doc: JsonValue) -> u64 {
    match json_u64(json_get(doc, "version"@)) {
        Some(n) => n,
        None => 1,
    }
}

/// The reference of a component: the first of `bom-ref`, `bomRef`, `purl` and
/// `name` that it has, if that is a string; `kernel` otherwise.
pub open spec fn component_ref(comp: JsonValue) -> Seq<char> {
    let v = if json_get(comp, "bom-ref"@) is Some {
        json_get(comp, "bom-ref"@)
    } else if json_get(comp, "bomRef"@) is Some {
        json_get(comp, "bomRef"@)
    } else if json_get(comp, "purl"@) is Some {
        json_get(comp, "purl"@)
    } else {
        json_get(comp, "name"@)
    };
    match json_str(v) {
        Some(s) => s,
        None => "kernel"@,
    }
}

/// `urn:cdx:<serial>/<version>#<bref>`
pub open spec fn bom_link(serial: Seq<char>, version: u64, bref: Seq<char>) -> Seq<char> {
    "urn:cdx:"@ + serial + seq!['/'] + decimal(version as nat) + seq!['#'] + bref
}

/// The links of the `linux_kernel` components among `comps`, in order.
pub open spec fn kernel_links(comps: Seq<JsonValue>, serial: Seq<char>, version: u64) -> Seq<Seq<char>>
    decreases comps.len(),
{
    if comps.len() == 0 {
        Seq::empty()
    } else {
        let c = comps.last();
        kernel_links(comps.drop_last(), serial, version) + if json_str(json_get(c, "name"@)) == Some(
            "linux_kernel"@,
        ) {
            seq![bom_link(serial, version, component_ref(c))]
        } else {
            Seq::empty()
        }
    }
}

/// The component references of a CycloneDX SBOM: one link per `linux_kernel`
/// component, or a single synthetic `#kernel` link when there is none.
pub open spec fn sbom_refs(doc: JsonValue) -> Seq<Seq<char>> {
    let serial = sbom_serial(doc);
    let version = sbom_version(doc);
    let links = match json_array(json_get(doc, "components"@)) {
        Some(comps) => kernel_links(comps, serial, version),
        None => Seq::empty(),
    };
    if links.len() == 0 {
        seq![bom_link(serial, version, "kernel"@)]
    } else {
        links
    }
}

pub open spec fn is_cyclonedx(doc: JsonValue) -> bool {
    json_str(json_get(doc, "bomFormat"@)) == Some("CycloneDX"@)
}

fn last_segment_exec(s: &Vec<char>) -> (r: Vec<char>)
    ensures
        r@ == last_segment(s@, s.len() as int),
{
    let mut end: usize = s.len();
    while end > 0 && s[end - 1] != ':'
        invariant
            end <= s.len(),
            last_segment(s@, s.len() as int) == last_segment(s@, end as int),
        decreases end,
    {
        end = end - 1;
    }
    let mut out: Vec<char> = Vec::new();
    let mut j: usize = end;
    while j < s.len()
        invariant
            end <= j <= s.len(),
            out@ == s@.subrange(end as int, j as int),
        decreases s.len() - j,
    {
        out.push(s[j]);
        j = j + 1;
        assert(out@ =~= s@.subrange(end as int, j as int));
    }
    out
}

fn bom_link_exec(serial: &Vec<char>, version: u64, bref: &Vec<char>) -> (r: String)
    ensures
        r@ == bom_link(serial@, version, bref@),
{
    let mut v = chars_of("urn:cdx:");
    append_chars(&mut v, serial);
    v.push('/');
    append_chars(&mut v, &decimal_exec(version));
    v.push('#');
    append_chars(&mut v, bref);
    assert(v@ =~= bom_link(serial@, version, bref@));
    string_of(&v)
}

fn component_ref_exec(comp: &JsonValue) -> (r: Vec<char>)
    ensures
        r@ == component_ref(*comp),
{
    let v = match comp.get("bom-ref") {
        Some(x) => Some(x),
        None => match comp.get("bomRef") {
            Some(x) => Some(x),
            None => match comp.get("purl") {
                Some(x) => Some(x),
                None => comp.get("name"),
            },
        },
    };
    let s = match v {
        Some(x) => x.as_str(),
        None => None,
    };
    match s {
        Some(t) => chars_of(t.as_str()),
        None => chars_of("kernel"),
    }
}

/// Reads the component references of an SBOM.  A document whose `bomFormat`
/// is not `CycloneDX` is refused.
pub fn load_sbom_component_refs(sbom_doc: &JsonValue) -> (r: Result<Vec<String>, KcfgVexError>)
    ensures
        r is Err <==> !is_cyclonedx(*sbom_doc),
        r matches Err(e) ==> e matches KcfgVexError::InvalidConfig(m) && m@
            == "SBOM is not CycloneDX JSON"@,
        r matches Ok(v) ==> strs_of(v@) == sbom_refs(*sbom_doc),
{
    let cdx = chars_of("CycloneDX");
    let format_ok = match sbom_doc.get("bomFormat") {
        Some(v) => match v.as_str() {
            Some(f) => same_chars(&chars_of(f.as_str()), &cdx),
            None => false,
        },
        None => false,
    };
    if !format_ok {
        return Err(KcfgVexError::InvalidConfig("SBOM is not CycloneDX JSON".to_owned()));
    }
    let serial_raw = match sbom_doc.get("serialNumber") {
        Some(v) => match v.as_str() {
            Some(t) => chars_of(t.as_str()),
            None => Vec::new(),
        },
        None => Vec::new(),
    };
    let serial = if serial_raw.len() == 0 {
        chars_of("unknown")
    } else {
        last_segment_exec(&serial_raw)
    };
    let version = match sbom_doc.get("version") {
        Some(v) => match v.as_u64() {
            Some(n) => n,
            None => 1,
        },
        None => 1,
    };
    assert(serial@ == sbom_serial(*sbom_doc));
    assert(version == sbom_version(*sbom_doc));
    let mut out: Vec<String> = Vec::new();
    let comps = match sbom_doc.get("components") {
        Some(c) => c.as_array(),
        None => None,
    };
    match comps {
        Some(items) => {
            let lk = chars_of("linux_kernel");
            let mut i: usize = 0;
            while i < items.len()
                invariant
                    i <= items.len(),
                    lk@ == "linux_kernel"@,
                    strs_of(out@) == kernel_links(items@.take(i as int), serial@, version),
                decreases items.len() - i,
            {
                let ghost pre = items@.take(i + 1);
                assert(pre.drop_last() =~= items@.take(i as int));
                assert(pre.last() == items@[i as int]);
                let is_kernel = match items[i].get("name") {
                    Some(n) => match n.as_str() {
                        Some(t) => same_chars(&chars_of(t.as_str()), &lk),
                        None => false,
                    },
                    None => false,
                };
                if is_kernel {
                    let bref = component_ref_exec(&items[i]);
                    let link = bom_link_exec(&serial, version, &bref);
                    let ghost before = strs_of(out@);
                    out.push(link);
                    assert(strs_of(out@) =~= before.push(link@));
                }
                assert(strs_of(out@) =~= kernel_links(items@.take(i + 1), serial@, version));
                i = i + 1;
            }
            assert(items@.take(items.len() as int) =~= items@);
        },
        None => {
            assert(strs_of(out@) =~= Seq::<Seq<char>>::empty());
        },
    }
    if out.len() == 0 {
        let k = chars_of("kernel");
        let link = bom_link_exec(&serial, version, &k);
        let ghost lv = link@;
        out.push(link);
        assert(strs_of(out@) =~= seq![lv]);
    }
    Ok(out)
}

} // verus!
