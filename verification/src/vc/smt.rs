//! The SMT-LIB inductiveness query and the reading of a solver's answer.

use vstd::prelude::*;
use crate::text::{debug_text, str_eq, trim, trim_text};
use crate::vc::certificate::FiniteInvariantCertificate;
use crate::vc::evidence::{BackendIdentity, EngineBinding, NormalizedClass, RawEngineResult, RawStatus, ResultScope};
use crate::vc::identity::{Sha256Id, id_text};
use crate::vc::ir::{BoolExpr, FiniteSafetyVc, IrError, IrErrorV, StateRef, ir_error_text, lemma_valid_refs, refs_below, text_views,
    valuations, vc_digest, vc_fault};

verus! {

pub const SMT_LIB_VERSION: &'static str = "SMT-LIB-2.7";

#[derive(Clone, Copy, Debug, PartialEq, Eq, Structural)]
pub enum SmtStatus {
    Sat,
    Unsat,
    Unknown,
}

#[derive(Clone, Debug, PartialEq, Eq)]
pub enum SmtProtocolError {
    InvalidVerificationCondition(IrError),
    MissingStatus,
    AmbiguousStatus,
    UnexpectedStatus(String),
}

pub enum SmtProtocolErrorV {
    InvalidVerificationCondition(IrErrorV),
    MissingStatus,
    AmbiguousStatus,
    UnexpectedStatus(Seq<char>),
}

impl View for SmtProtocolError {
    type V = SmtProtocolErrorV;

    open spec fn view(&self) -> SmtProtocolErrorV {
        match self {
            SmtProtocolError::InvalidVerificationCondition(e) => SmtProtocolErrorV::InvalidVerificationCondition(e@),
            SmtProtocolError::MissingStatus => SmtProtocolErrorV::MissingStatus,
            SmtProtocolError::AmbiguousStatus => SmtProtocolErrorV::AmbiguousStatus,
            SmtProtocolError::UnexpectedStatus(s) => SmtProtocolErrorV::UnexpectedStatus(s@),
        }
    }
}

pub open spec fn smt_error_text(e: SmtProtocolErrorV) -> Seq<char> {
    match e {
        SmtProtocolErrorV::InvalidVerificationCondition(x) => "invalid VC: "@ + ir_error_text(x),
        SmtProtocolErrorV::MissingStatus => "SMT response did not contain a status line"@,
        SmtProtocolErrorV::AmbiguousStatus => "SMT response contained multiple status lines"@,
        SmtProtocolErrorV::UnexpectedStatus(s) => "unexpected SMT status "@ + debug_text(s),
    }
}

impl SmtProtocolError {
    /// The text that describes the error.
    pub fn to_string(&self) -> (r: String)
        ensures
            r@ == smt_error_text(self@),
    {
        match self {
            SmtProtocolError::InvalidVerificationCondition(e) => String::from_str("invalid VC: ").concat(e.to_string().as_str()),
            SmtProtocolError::MissingStatus => String::from_str("SMT response did not contain a status line"),
            SmtProtocolError::AmbiguousStatus => String::from_str("SMT response contained multiple status lines"),
            SmtProtocolError::UnexpectedStatus(s) =>
                String::from_str("unexpected SMT status ").concat(crate::text::debug_string(s.as_str()).as_str()),
        }
    }
}

/// The SMT-LIB text of `e` over the variable names `names`; a current-state
/// variable is read in the next state where `prime` holds.
pub open spec fn smt_text(e: BoolExpr, names: Seq<Seq<char>>, prime: bool) -> Seq<char>
    decreases e,
{
    match e {
        BoolExpr::Const(b) => if b { "true"@ } else { "false"@ },
        BoolExpr::Var(StateRef::Current(i)) => (if prime { "next"@ } else { "cur"@ }) + "_"@ + names[i as int],
        BoolExpr::Var(StateRef::Next(i)) => "next_"@ + names[i as int],
        BoolExpr::Not(x) => "(not "@ + smt_text(*x, names, prime) + ")"@,
        BoolExpr::And(items) => if items@.len() == 0 { "true"@ } else { "(and"@ + smt_items(items@, names, prime) + ")"@ },
        BoolExpr::Or(items) => if items@.len() == 0 { "false"@ } else { "(or"@ + smt_items(items@, names, prime) + ")"@ },
        BoolExpr::Implies(a, b) => "(=> "@ + smt_text(*a, names, prime) + " "@ + smt_text(*b, names, prime) + ")"@,
        BoolExpr::Iff(a, b) => "(= "@ + smt_text(*a, names, prime) + " "@ + smt_text(*b, names, prime) + ")"@,
    }
}

/// Each expression of `s`, preceded by a space.
pub open spec fn smt_items(s: Seq<BoolExpr>, names: Seq<Seq<char>>, prime: bool) -> Seq<char>
    decreases s,
{
    if s.len() == 0 {
        Seq::empty()
    } else {
        smt_items(s.drop_last(), names, prime) + " "@ + smt_text(s.last(), names, prime)
    }
}

fn write_smt(e: &BoolExpr, names: &Vec<String>, output: &mut String, prime: bool)
    requires
        refs_below(*e, names@.len()),
    ensures
        final(output)@ == old(output)@ + smt_text(*e, text_views(names@), prime),
    decreases e,
{
    let ghost nv = text_views(names@);
    match e {
        BoolExpr::Const(value) => {
            if *value {
                output.append("true");
            } else {
                output.append("false");
            }
        },
        BoolExpr::Var(StateRef::Current(index)) => {
            if prime {
                output.append("next");
            } else {
                output.append("cur");
            }
            output.append("_");
            output.append(names[*index].as_str());
        },
        BoolExpr::Var(StateRef::Next(index)) => {
            output.append("next_");
            output.append(names[*index].as_str());
        },
        BoolExpr::Not(inner) => {
            output.append("(not ");
            write_smt(inner, names, output, prime);
            output.append(")");
        },
        BoolExpr::And(items) => {
            if items.len() == 0 {
                output.append("true");
            } else {
                output.append("(and");
                write_smt_items(items, names, output, prime);
                output.append(")");
            }
        },
        BoolExpr::Or(items) => {
            if items.len() == 0 {
                output.append("false");
            } else {
                output.append("(or");
                write_smt_items(items, names, output, prime);
                output.append(")");
            }
        },
        BoolExpr::Implies(left, right) => {
            output.append("(=> ");
            write_smt(left, names, output, prime);
            output.append(" ");
            write_smt(right, names, output, prime);
            output.append(")");
        },
        BoolExpr::Iff(left, right) => {
            output.append("(= ");
            write_smt(left, names, output, prime);
            output.append(" ");
            write_smt(right, names, output, prime);
            output.append(")");
        },
    }
    proof {
        assert(output@ =~= old(output)@ + smt_text(*e, nv, prime));
    }
}

fn write_smt_items(items: &Vec<BoolExpr>, names: &Vec<String>, output: &mut String, prime: bool)
    requires
        crate::vc::ir::all_below(items@, names@.len()),
    ensures
        final(output)@ == old(output)@ + smt_items(items@, text_views(names@), prime),
    decreases items,
{
    let ghost start = output@;
    let ghost nv = text_views(names@);
    let mut k: usize = 0;
    proof {
        assert(output@ =~= start + smt_items(items@.subrange(0, 0), nv, prime));
    }
    while k < items.len()
        invariant
            nv == text_views(names@),
            crate::vc::ir::all_below(items@, names@.len()),
            k <= items@.len(),
            output@ == start + smt_items(items@.subrange(0, k as int), nv, prime),
        decreases items@.len() - k,
    {
        proof {
            assert(decreases_to!(items => items@[k as int]));
            crate::vc::ir::lemma_all_below(items@, names@.len(), k as int);
        }
        output.append(" ");
        write_smt(&items[k], names, output, prime);
        proof {
            assert(items@.subrange(0, k + 1).drop_last() =~= items@.subrange(0, k as int));
            assert(output@ =~= start + smt_items(items@.subrange(0, k + 1), nv, prime));
        }
        k = k + 1;
    }
    proof {
        assert(items@.subrange(0, items@.len() as int) =~= items@);
    }
}

/// The declarations of the current and next value of each variable.
pub open spec fn declarations(names: Seq<Seq<char>>) -> Seq<char>
    decreases names.len(),
{
    if names.len() == 0 {
        Seq::empty()
    } else {
        declarations(names.drop_last()) + "(declare-fun cur_"@ + names.last() + " () Bool)\n"@ + "(declare-fun next_"@
            + names.last() + " () Bool)\n"@
    }
}

/// The query of a valid condition: its identities in comments, then the
/// failure of initiation or of consecution as one named assertion.
pub open spec fn query_text(vc: FiniteSafetyVc) -> Seq<char> {
    let names = text_views(vc.variables@);
    header_text(vc, vc_digest(vc)) + declarations(names) + assertion_text(vc) + "(check-sat)\n(get-proof)\n(get-info :version)\n(exit)\n"@
}

/// The comments and settings that open the query of `vc`, whose digest is
/// `digest`.
pub open spec fn header_text(vc: FiniteSafetyVc, digest: Seq<char>) -> Seq<char> {
    "; NMLT finite-safety inductiveness query\n"@ + "; protocol: "@ + SMT_LIB_VERSION@ + "\n"@ + "; vc: "@ + digest + "\n"@
        + "; model: "@ + vc.identity.model@ + "\n"@ + "; claim: "@ + vc.identity.claim@ + "\n"@ + "; configuration: "@
        + vc.identity.configuration@ + "\n"@ + "(set-logic QF_UF)\n"@ + "(set-option :produce-proofs true)\n"@
}

fn query_header(vc: &FiniteSafetyVc, digest: &Sha256Id) -> (r: String)
    ensures
        r@ == header_text(*vc, digest@),
{
    let mut output = String::from_str("; NMLT finite-safety inductiveness query\n");
    output.append("; protocol: ");
    output.append(SMT_LIB_VERSION);
    output.append("\n");
    output.append("; vc: ");
    output.append(digest.as_str());
    output.append("\n");
    output.append("; model: ");
    output.append(vc.identity.model.as_str());
    output.append("\n");
    output.append("; claim: ");
    output.append(vc.identity.claim.as_str());
    output.append("\n");
    output.append("; configuration: ");
    output.append(vc.identity.configuration.as_str());
    output.append("\n");
    output.append("(set-logic QF_UF)\n");
    output.append("(set-option :produce-proofs true)\n");
    proof {
        assert(output@ =~= header_text(*vc, digest@));
    }
    output
}

/// The assertion that initiation or consecution fails.
pub open spec fn assertion_text(vc: FiniteSafetyVc) -> Seq<char> {
    let names = text_views(vc.variables@);
    "(assert (! (or (and "@ + smt_text(vc.initial, names, false) + " (not "@ + smt_text(vc.property, names, false) + ")) (and "@
        + smt_text(vc.property, names, false) + " "@ + smt_text(vc.transition, names, false) + " (not "@
        + smt_text(vc.property, names, true) + "))) :named nmlt_inductiveness_counterexample))\n"@
}

fn write_assertion(vc: &FiniteSafetyVc, output: &mut String)
    requires
        refs_below(vc.initial, vc.variables@.len()),
        refs_below(vc.transition, vc.variables@.len()),
        refs_below(vc.property, vc.variables@.len()),
    ensures
        final(output)@ == old(output)@ + assertion_text(*vc),
{
    output.append("(assert (! (or (and ");
    write_smt(&vc.initial, &vc.variables, output, false);
    output.append(" (not ");
    write_smt(&vc.property, &vc.variables, output, false);
    output.append(")) (and ");
    write_smt(&vc.property, &vc.variables, output, false);
    output.append(" ");
    write_smt(&vc.transition, &vc.variables, output, false);
    output.append(" (not ");
    write_smt(&vc.property, &vc.variables, output, true);
    output.append("))) :named nmlt_inductiveness_counterexample))\n");
    proof {
        assert(output@ =~= old(output)@ + assertion_text(*vc));
    }
}

/// Encodes the failure of initiation or consecution. `unsat` says the
/// property is inductive, but only a certificate that the library accepts
/// can make that `Proved`.
#[verifier::rlimit(40)]
pub fn encode_inductiveness_query(vc: &FiniteSafetyVc) -> (r: Result<String, SmtProtocolError>)
    ensures
        r is Ok <==> vc_fault(*vc) is None,
        r matches Err(e) ==> e@ == SmtProtocolErrorV::InvalidVerificationCondition(vc_fault(*vc)->0),
        r matches Ok(q) ==> q@ == query_text(*vc),
{
    match vc.validate() {
        Err(e) => return Err(SmtProtocolError::InvalidVerificationCondition(e)),
        Ok(()) => {},
    }
    let digest = match vc.digest() {
        Err(e) => return Err(SmtProtocolError::InvalidVerificationCondition(e)),
        Ok(d) => d,
    };
    proof {
        lemma_valid_refs(*vc);
    }
    let ghost names = text_views(vc.variables@);
    let mut output = query_header(vc, &digest);
    let ghost head = output@;
    let mut k: usize = 0;
    proof {
        assert(output@ =~= head + declarations(names.subrange(0, 0)));
    }
    while k < vc.variables.len()
        invariant
            names == text_views(vc.variables@),
            k <= names.len(),
            output@ == head + declarations(names.subrange(0, k as int)),
        decreases names.len() - k,
    {
        output.append("(declare-fun cur_");
        output.append(vc.variables[k].as_str());
        output.append(" () Bool)\n");
        output.append("(declare-fun next_");
        output.append(vc.variables[k].as_str());
        output.append(" () Bool)\n");
        proof {
            assert(names.subrange(0, k + 1).drop_last() =~= names.subrange(0, k as int));
            assert(output@ =~= head + declarations(names.subrange(0, k + 1)));
        }
        k = k + 1;
    }
    proof {
        assert(names.subrange(0, names.len() as int) =~= names);
    }
    write_assertion(vc, &mut output);
    output.append("(check-sat)\n(get-proof)\n(get-info :version)\n(exit)\n");
    proof {
        assert(output@ =~= query_text(*vc));
    }
    Ok(output)
}

/// The text that `String::from_utf8_lossy` makes of `bytes`.
pub uninterp spec fn utf8_lossy(bytes: Seq<u8>) -> Seq<char>;

/// Calls `String::from_utf8_lossy`, which decodes `bytes` as UTF-8 and puts
/// U+FFFD in place of each invalid sequence: the result is named by
/// `utf8_lossy`, and for valid UTF-8 it is the decoded text. How invalid
/// sequences are replaced is left unstated.
#[verifier::external_body]
fn lossy_text(bytes: &[u8]) -> (r: String)
    ensures
        r@ == utf8_lossy(bytes@),
        vstd::utf8::valid_utf8(bytes@) ==> r@ == vstd::utf8::decode_utf8(bytes@),
{
    String::from_utf8_lossy(bytes).into_owned()
}

/// The position of the first line feed of `s` at or after `p`, or the
/// length of `s`.
pub open spec fn line_end(s: Seq<char>, p: int) -> int
    decreases s.len() - p,
{
    if p < 0 || p >= s.len() {
        s.len() as int
    } else if s[p] == '\n' {
        p
    } else {
        line_end(s, p + 1)
    }
}

/// The line that starts at `p`: up to the next line feed, without a
/// carriage return before it; a last line without a line feed is kept as
/// it is.
pub open spec fn line_at(s: Seq<char>, p: int) -> Seq<char> {
    let e = line_end(s, p);
    if e < s.len() && e > p && s[e - 1] == '\r' {
        s.subrange(p, e - 1)
    } else {
        s.subrange(p, e)
    }
}

/// The status that a trimmed line states, if it states one.
pub open spec fn status_of(t: Seq<char>) -> Option<SmtStatus> {
    if t == "sat"@ {
        Some(SmtStatus::Sat)
    } else if t == "unsat"@ {
        Some(SmtStatus::Unsat)
    } else if t == "unknown"@ {
        Some(SmtStatus::Unknown)
    } else {
        None
    }
}

/// The statuses stated by the lines of `s` from position `p` on, in order.
pub open spec fn statuses_from(s: Seq<char>, p: int) -> Seq<SmtStatus>
    decreases s.len() + 1 - p,
{
    if p < 0 || p >= s.len() {
        Seq::empty()
    } else {
        proof {
            lemma_line_end_bounds(s, p);
        }
        (if status_of(trim_text(line_at(s, p))) is Some { seq![status_of(trim_text(line_at(s, p)))->0] } else { Seq::empty() })
            + statuses_from(s, line_end(s, p) + 1)
    }
}

/// What a solver's output says: its only status line, or an error where it
/// has none or several.
pub open spec fn parsed_status(stdout: Seq<u8>) -> Result<SmtStatus, SmtProtocolErrorV> {
    text_status(utf8_lossy(stdout))
}

/// The status a solver's output text states: exactly one status line.
pub open spec fn text_status(text: Seq<char>) -> Result<SmtStatus, SmtProtocolErrorV> {
    let found = statuses_from(text, 0);
    if found.len() == 0 {
        Err(SmtProtocolErrorV::MissingStatus)
    } else if found.len() == 1 {
        Ok(found[0])
    } else {
        Err(SmtProtocolErrorV::AmbiguousStatus)
    }
}

pub proof fn lemma_line_end_bounds(s: Seq<char>, p: int)
    requires
        0 <= p < s.len(),
    ensures
        p <= line_end(s, p) <= s.len(),
    decreases s.len() - p,
{
    if s[p] != '\n' {
        if p + 1 < s.len() {
            lemma_line_end_bounds(s, p + 1);
        } else {
            assert(line_end(s, p + 1) == s.len());
        }
    }
}

proof fn lemma_line_end(s: Seq<char>, p: int, e: int)
    requires
        0 <= p <= e <= s.len(),
        forall|i: int| p <= i < e ==> s[i] != '\n',
        e == s.len() || s[e] == '\n',
    ensures
        line_end(s, p) == e,
    decreases e - p,
{
    if p < e {
        lemma_line_end(s, p + 1, e);
    }
}

/// Reads the status of a solver's output: exactly one line that is, after
/// trimming, `sat`, `unsat` or `unknown`.
pub fn parse_smt_status(stdout: &[u8]) -> (r: Result<SmtStatus, SmtProtocolError>)
    ensures
        match r {
            Ok(st) => parsed_status(stdout@) == Ok::<SmtStatus, SmtProtocolErrorV>(st),
            Err(e) => parsed_status(stdout@) == Err::<SmtStatus, SmtProtocolErrorV>(e@),
        },
        vstd::utf8::valid_utf8(stdout@) ==> match r {
            Ok(st) => text_status(vstd::utf8::decode_utf8(stdout@)) == Ok::<SmtStatus, SmtProtocolErrorV>(st),
            Err(e) => text_status(vstd::utf8::decode_utf8(stdout@)) == Err::<SmtStatus, SmtProtocolErrorV>(e@),
        },
{
    let text = lossy_text(stdout);
    let s = text.as_str();
    let n = s.unicode_len();
    let ghost sv = s@;
    let mut found: Vec<SmtStatus> = Vec::new();
    let mut p: usize = 0;
    while p < n
        invariant
            sv == s@,
            n == sv.len(),
            p <= n,
            statuses_from(sv, 0) == found@ + statuses_from(sv, p as int),
        decreases n - p,
    {
        let mut e = p;
        while e < n && s.get_char(e) != '\n'
            invariant
                sv == s@,
                n == sv.len(),
                p <= e <= n,
                forall|i: int| p <= i < e ==> sv[i] != '\n',
            decreases n - e,
        {
            e = e + 1;
        }
        proof {
            lemma_line_end(sv, p as int, e as int);
        }
        let line = if e < n && e > p && s.get_char(e - 1) == '\r' {
            s.substring_char(p, e - 1)
        } else {
            s.substring_char(p, e)
        };
        let t = trim(line);
        let ghost before = found@;
        if str_eq(t, "sat") {
            found.push(SmtStatus::Sat);
        } else if str_eq(t, "unsat") {
            found.push(SmtStatus::Unsat);
        } else if str_eq(t, "unknown") {
            found.push(SmtStatus::Unknown);
        }
        proof {
            assert(line@ == line_at(sv, p as int));
            assert(found@ =~= before + if status_of(trim_text(line_at(sv, p as int))) is Some {
                seq![status_of(trim_text(line_at(sv, p as int)))->0]
            } else {
                Seq::<SmtStatus>::empty()
            });
        }
        let ghost old_p = p as int;
        if e < n {
            p = e + 1;
        } else {
            p = n;
        }
        proof {
            let blk = if status_of(trim_text(line_at(sv, old_p))) is Some {
                seq![status_of(trim_text(line_at(sv, old_p)))->0]
            } else {
                Seq::<SmtStatus>::empty()
            };
            assert(statuses_from(sv, old_p) == blk + statuses_from(sv, e + 1));
            if e == n {
                assert(statuses_from(sv, e + 1) == Seq::<SmtStatus>::empty());
                assert(statuses_from(sv, p as int) == Seq::<SmtStatus>::empty());
            }
            assert(statuses_from(sv, 0) =~= found@ + statuses_from(sv, p as int));
        }
    }
    proof {
        assert(found@ =~= statuses_from(sv, 0));
    }
    if found.len() == 0 {
        Err(SmtProtocolError::MissingStatus)
    } else if found.len() == 1 {
        Ok(found[0])
    } else {
        Err(SmtProtocolError::AmbiguousStatus)
    }
}

#[derive(Clone, Debug, PartialEq, Eq)]
pub struct SmtBackendReturn {
    pub engine: BackendIdentity,
    pub binding: EngineBinding,
    pub stdout: Vec<u8>,
    pub stderr: Vec<u8>,
    /// A translation of the solver's evidence into the library's certificate.
    pub certificate: Option<FiniteInvariantCertificate>,
}

/// The separator between the output and the error output of a backend.
pub open spec fn stderr_separator() -> Seq<u8> {
    vstd::utf8::encode_utf8("\n--- stderr ---\n"@)
}

/// The raw output kept of a backend: its output, the separator, then its
/// error output.
pub fn joined_output(stdout: Vec<u8>, stderr: &Vec<u8>) -> (r: Vec<u8>)
    ensures
        r@ == stdout@ + stderr_separator() + stderr@,
{
    let mut out = stdout;
    crate::sha256::append_bytes(&mut out, "\n--- stderr ---\n".as_bytes());
    crate::sha256::append_bytes(&mut out, stderr.as_slice());
    out
}

/// What a solver's answer makes of the claim: `Proved` only for `unsat`
/// with a certificate, which normalization must still accept.
pub open spec fn smt_outcome(parsed: Result<SmtStatus, SmtProtocolErrorV>, certificate: Option<FiniteInvariantCertificate>,
    status: RawStatus, kept: Option<FiniteInvariantCertificate>) -> bool {
    match parsed {
        Ok(SmtStatus::Unsat) => if certificate is Some {
            &&& status == (RawStatus::Holds { requested_class: NormalizedClass::Proved })
            &&& kept == certificate
        } else {
            &&& status matches RawStatus::Unknown { reason } && reason@ == "solver returned unsat without an NMLT-checkable certificate"@
            &&& kept is None
        },
        Ok(SmtStatus::Sat) => {
            &&& status matches RawStatus::Unknown { reason }
                && reason@ == "property is not inductive; SMT sat is not a reachability counterexample"@
            &&& kept is None
        },
        Ok(SmtStatus::Unknown) => {
            &&& status matches RawStatus::Unknown { reason } && reason@ == "SMT solver returned unknown"@
            &&& kept is None
        },
        Err(e) => {
            &&& status matches RawStatus::BackendFailure { reason } && reason@ == smt_error_text(e)
            &&& kept is None
        },
    }
}

/// Turns a solver's answer into an engine result, keeping its raw output.
pub fn normalize_smt_return(vc: &FiniteSafetyVc, returned: SmtBackendReturn) -> (r: RawEngineResult)
    requires
        vc.variables@.len() < usize::BITS,
    ensures
        r.engine == returned.engine,
        r.binding == returned.binding,
        r.method@ == "smt-lib-2.7-inductiveness/1"@,
        r.scope == (ResultScope::CompleteFinite { states: valuations(vc.variables@.len()) as usize }),
        r.raw_output@ == returned.stdout@ + stderr_separator() + returned.stderr@,
        smt_outcome(parsed_status(returned.stdout@), returned.certificate, r.status, r.certificate),
{
    let parsed = parse_smt_status(returned.stdout.as_slice());
    let SmtBackendReturn { engine, binding, stdout, stderr, certificate } = returned;
    let raw_output = joined_output(stdout, &stderr);
    let (status, certificate) = match parsed {
        Ok(SmtStatus::Unsat) => {
            if certificate.is_some() {
                (RawStatus::Holds { requested_class: NormalizedClass::Proved }, certificate)
            } else {
                (RawStatus::Unknown { reason: String::from_str("solver returned unsat without an NMLT-checkable certificate") }, None)
            }
        },
        Ok(SmtStatus::Sat) => (
            RawStatus::Unknown { reason: String::from_str("property is not inductive; SMT sat is not a reachability counterexample") },
            None,
        ),
        Ok(SmtStatus::Unknown) => (RawStatus::Unknown { reason: String::from_str("SMT solver returned unknown") }, None),
        Err(error) => (RawStatus::BackendFailure { reason: error.to_string() }, None),
    };
    RawEngineResult {
        engine,
        binding,
        method: String::from_str("smt-lib-2.7-inductiveness/1"),
        scope: ResultScope::CompleteFinite { states: vc.state_count() },
        status,
        certificate,
        raw_output,
    }
}

/// The identity of a query: the digest of its UTF-8 bytes.
pub fn query_identity(query: &str) -> (r: Sha256Id)
    ensures
        r@ == id_text(vstd::utf8::encode_utf8(query@)),
{
    Sha256Id::digest(query.as_bytes())
}

} // verus!
