//! Verdicts on advisories and the CycloneDX VEX document that carries them.
use vstd::prelude::*;
use crate::text::{chars_of, string_of, strs_of, append_chars, seqs_of};

verus! {

/// One advisory's verdict for the component references it applies to.
#[derive(Debug)]
pub struct VexEntry {
    pub cve_id: String,
    pub state: String,
    pub justification: Option<String>,
    pub detail: String,
    pub component_refs: Vec<String>,
}

#[derive(Debug)]
pub struct VexSource {
    pub name: String,
    pub url: String,
}

#[derive(Debug)]
pub struct VexAnalysis {
    pub state: String,
    pub detail: String,
    pub justification: Option<String>,
}

#[derive(Debug)]
pub struct VexAffects {
    pub component_ref: String,
}

#[derive(Debug)]
pub struct VexVulnerability {
    pub id: String,
    pub source: VexSource,
    pub analysis: VexAnalysis,
    pub affects: Vec<VexAffects>,
}

/// When the document was made, as an RFC 3339 UTC timestamp.
#[derive(Debug)]
pub struct VexMetadata {
    pub timestamp: String,
}

#[derive(Debug)]
pub struct CycloneDxVex {
    pub bom_format: String,
    pub spec_version: String,
    pub version: u32,
    pub serial_number: String,
    pub metadata: VexMetadata,
    pub vulnerabilities: Vec<VexVulnerability>,
}

pub open spec fn opt_str(o: Option<String>) -> Option<Seq<char>> {
    match o {
        Some(s) => Some(s@),
        None => None,
    }
}

impl VexEntry {
    pub fn new(
        cve_id: String,
        state: String,
        detail: String,
        justification: Option<String>,
        component_refs: Vec<String>,
    ) -> (r: VexEntry)
        ensures
            r.cve_id == cve_id,
            r.state == state,
            r.detail == detail,
            r.justification == justification,
            r.component_refs == component_refs,
    {
        VexEntry { cve_id, state, justification, detail, component_refs }
    }
}

/// `xs` joined with `", "` between consecutive elements.
pub open spec fn comma_join(xs: Seq<Seq<char>>) -> Seq<char>
    decreases xs.len(),
{
    if xs.len() == 0 {
        Seq::empty()
    } else if xs.len() == 1 {
        xs[0]
    } else {
        comma_join(xs.drop_last()) + seq![',', ' '] + xs.last()
    }
}

/// The state of a verdict, from whether a required symbol is enabled and the
/// symbols found.
pub open spec fn verdict_state(is_enabled: bool, union: Seq<Seq<char>>) -> Seq<char> {
    if union.len() == 0 {
        "under_investigation"@
    } else if is_enabled {
        "affected"@
    } else {
        "not_affected"@
    }
}

pub open spec fn verdict_justification(is_enabled: bool, union: Seq<Seq<char>>) -> Option<Seq<char>> {
    if union.len() > 0 && !is_enabled {
        Some("code_not_reachable"@)
    } else {
        None
    }
}

pub open spec fn verdict_detail(is_enabled: bool, union: Seq<Seq<char>>) -> Seq<char> {
    if union.len() == 0 {
        "Could not infer enabling symbols for listed programFiles"@
    } else if is_enabled {
        "Enabled symbols: "@ + comma_join(union)
    } else {
        "Required symbols present in source but not enabled in provided .config: "@ + comma_join(
            union,
        )
    }
}

/// `xs` joined with `", "`.
pub fn comma_join_exec(xs: &Vec<String>) -> (r: Vec<char>)
    ensures
        r@ == comma_join(strs_of(xs@)),
{
    let mut out: Vec<char> = Vec::new();
    let mut i: usize = 0;
    while i < xs.len()
        invariant
            i <= xs.len(),
            out@ == comma_join(strs_of(xs@).take(i as int)),
        decreases xs.len() - i,
    {
        let ghost pre = strs_of(xs@).take(i + 1);
        assert(pre.drop_last() =~= strs_of(xs@).take(i as int));
        assert(pre.last() == xs[i as int]@);
        if i > 0 {
            out.push(',');
            out.push(' ');
        } else {
            assert(pre.len() == 1);
        }
        append_chars(&mut out, &chars_of(xs[i].as_str()));
        i = i + 1;
        assert(out@ =~= comma_join(strs_of(xs@).take(i as int)));
    }
    assert(strs_of(xs@).take(xs.len() as int) =~= strs_of(xs@));
    out
}

/// The verdict for an advisory: its state, its justification (only for
/// `not_affected`) and a detail naming the symbols.
pub fn derive_vex_state(is_enabled: bool, union_symbols: &Vec<String>) -> (r: (
    String,
    Option<String>,
    String,
))
    ensures
        r.0@ == verdict_state(is_enabled, strs_of(union_symbols@)),
        opt_str(r.1) == verdict_justification(is_enabled, strs_of(union_symbols@)),
        r.2@ == verdict_detail(is_enabled, strs_of(union_symbols@)),
{
    if union_symbols.len() == 0 {
        (
            "under_investigation".to_owned(),
            None,
            "Could not infer enabling symbols for listed programFiles".to_owned(),
        )
    } else if is_enabled {
        let mut d = chars_of("Enabled symbols: ");
        append_chars(&mut d, &comma_join_exec(union_symbols));
        ("affected".to_owned(), None, string_of(&d))
    } else {
        let mut d = chars_of(
            "Required symbols present in source but not enabled in provided .config: ",
        );
        append_chars(&mut d, &comma_join_exec(union_symbols));
        ("not_affected".to_owned(), Some("code_not_reachable".to_owned()), string_of(&d))
    }
}

/// Whatever the inputs, a verdict is in exactly one of the three states, and
/// it is justified exactly when it is `not_affected`.
pub proof fn lemma_verdict_total(is_enabled: bool, union: Seq<Seq<char>>)
    ensures
        verdict_state(is_enabled, union) == "affected"@ || verdict_state(is_enabled, union)
            == "not_affected"@ || verdict_state(is_enabled, union) == "under_investigation"@,
        "affected"@ != "not_affected"@,
        "affected"@ != "under_investigation"@,
        "not_affected"@ != "under_investigation"@,
        verdict_justification(is_enabled, union) is Some <==> verdict_state(is_enabled, union)
            == "not_affected"@,
{
    reveal_strlit("affected");
    reveal_strlit("not_affected");
    reveal_strlit("under_investigation");
    assert("affected"@.len() != "not_affected"@.len());
    assert("affected"@.len() != "under_investigation"@.len());
    assert("not_affected"@.len() != "under_investigation"@.len());
}

pub open spec fn nvd_url(id: Seq<char>) -> Seq<char> {
    "https://nvid.nist.gov/vuln/detail/"@ + id
}

/// The vulnerability record for one entry: the justification is kept only for
/// `not_affected`.
pub open spec fn vulnerability_matches(v: VexVulnerability, e: VexEntry) -> bool {
    &&& v.id@ == e.cve_id@
    &&& v.source.name@ == "NVD"@
    &&& v.source.url@ == nvd_url(e.cve_id@)
    &&& v.analysis.state@ == e.state@
    &&& v.analysis.detail@ == e.detail@
    &&& opt_str(v.analysis.justification) == if e.state@ == "not_affected"@ {
        opt_str(e.justification)
    } else {
        None
    }
    &&& v.affects@.len() == e.component_refs@.len()
    &&& forall|i: int|
        0 <= i < v.affects@.len() ==> (#[trigger] v.affects@[i]).component_ref@
            == e.component_refs@[i]@
}

pub open spec fn is_lower_hex(c: char) -> bool {
    ('0' <= c && c <= '9') || ('a' <= c && c <= 'f')
}

/// A version-4 UUID in hyphenated lower-case form: hex digits in groups of
/// 8-4-4-4-12, version digit `4`, variant digit one of `8`, `9`, `a`, `b`.
pub open spec fn is_uuid_v4_text(s: Seq<char>) -> bool {
    &&& s.len() == 36
    &&& forall|i: int|
        0 <= i < 36 ==> if i == 8 || i == 13 || i == 18 || i == 23 {
            s[i] == '-'
        } else {
            is_lower_hex(#[trigger] s[i])
        }
    &&& s[14] == '4'
    &&& (s[19] == '8' || s[19] == '9' || s[19] == 'a' || s[19] == 'b')
}

/// Relies on `uuid::Uuid::new_v4` and its `Display`: a random version-4 UUID
/// (version and variant bits set by `new_v4`), written by `Display` in the
/// hyphenated lower-case form.
#[verifier::external_body]
fn random_uuid() -> (r: String)
    ensures
        is_uuid_v4_text(r@),
{
    uuid::Uuid::new_v4().to_string()
}

/// Relies on `chrono::Utc::now` and `DateTime::to_rfc3339_opts` with `use_z`:
/// the current time in RFC 3339 form, which for UTC ends in `Z`.
#[verifier::external_body]
fn utc_timestamp() -> (r: String)
    ensures
        r@.len() > 0,
        r@.last() == 'Z',
{
    chrono::Utc::now().to_rfc3339_opts(chrono::SecondsFormat::AutoSi, true)
}

fn copy_string(s: &String) -> (r: String)
    ensures
        r@ == s@,
{
    s.clone()
}

fn vulnerability_of(e: &VexEntry) -> (r: VexVulnerability)
    ensures
        vulnerability_matches(r, *e),
{
    let mut url = chars_of("https://nvid.nist.gov/vuln/detail/");
    append_chars(&mut url, &chars_of(e.cve_id.as_str()));
    let na = "not_affected".to_owned();
    let justification = if e.state == na {
        match &e.justification {
            Some(j) => Some(copy_string(j)),
            None => None,
        }
    } else {
        None
    };
    let mut affects: Vec<VexAffects> = Vec::new();
    let mut i: usize = 0;
    while i < e.component_refs.len()
        invariant
            i <= e.component_refs.len(),
            affects@.len() == i,
            forall|k: int|
                0 <= k < i ==> (#[trigger] affects@[k]).component_ref@ == e.component_refs@[k]@,
        decreases e.component_refs.len() - i,
    {
        affects.push(VexAffects { component_ref: copy_string(&e.component_refs[i]) });
        i = i + 1;
    }
    VexVulnerability {
        id: copy_string(&e.cve_id),
        source: VexSource { name: "NVD".to_owned(), url: string_of(&url) },
        analysis: VexAnalysis {
            state: copy_string(&e.state),
            detail: copy_string(&e.detail),
            justification,
        },
        affects,
    }
}

/// Builds the VEX document for `entries`, in order.  The specification
/// version defaults to `1.4`, and the serial number to `urn:uuid:` followed by
/// a fresh random version-4 UUID; the timestamp is the current UTC time.
pub fn build_vex(entries: Vec<VexEntry>, spec_version: Option<String>, serial_number: Option<String>) -> (r:
    CycloneDxVex)
    ensures
        r.bom_format@ == "CycloneDX"@,
        r.spec_version@ == match spec_version {
            Some(v) => v@,
            None => "1.4"@,
        },
        r.version == 1,
        match serial_number {
            Some(s) => r.serial_number@ == s@,
            None => r.serial_number@.take(9) == "urn:uuid:"@ && is_uuid_v4_text(
                r.serial_number@.skip(9),
            ),
        },
        r.metadata.timestamp@.len() > 0,
        r.metadata.timestamp@.last() == 'Z',
        r.vulnerabilities@.len() == entries@.len(),
        forall|i: int|
            0 <= i < entries@.len() ==> vulnerability_matches(
                #[trigger] r.vulnerabilities@[i],
                entries@[i],
            ),
{
    let mut vulnerabilities: Vec<VexVulnerability> = Vec::new();
    let mut i: usize = 0;
    while i < entries.len()
        invariant
            i <= entries.len(),
            vulnerabilities@.len() == i,
            forall|k: int|
                0 <= k < i ==> vulnerability_matches(#[trigger] vulnerabilities@[k], entries@[k]),
        decreases entries.len() - i,
    {
        vulnerabilities.push(vulnerability_of(&entries[i]));
        i = i + 1;
    }
    let serial = match serial_number {
        Some(s) => s,
        None => {
            let mut sn = chars_of("urn:uuid:");
            proof {
                reveal_strlit("urn:uuid:");
            }
            let ghost prefix = sn@;
            let u = random_uuid();
            append_chars(&mut sn, &chars_of(u.as_str()));
            assert(sn@.take(9) =~= prefix);
            assert(sn@.skip(9) =~= u@);
            string_of(&sn)
        },
    };
    let spec = match spec_version {
        Some(v) => v,
        None => "1.4".to_owned(),
    };
    CycloneDxVex {
        bom_format: "CycloneDX".to_owned(),
        spec_version: spec,
        version: 1,
        serial_number: serial,
        metadata: VexMetadata { timestamp: utc_timestamp() },
        vulnerabilities,
    }
}

/// The name of the file that holds the verdicts in `state`: `vex_<state>.json`.
pub fn vex_file_name(state: &str) -> (r: String)
    ensures
        r@ == "vex_"@ + state@ + ".json"@,
{
    let mut n = chars_of("vex_");
    append_chars(&mut n, &chars_of(state));
    append_chars(&mut n, &chars_of(".json"));
    string_of(&n)
}

} // verus!
