//! One-shot evaluation of explorer commands.
//!
//! An [`EvalCommand`] (decoded from a JSON object by the command-line tool)
//! is evaluated to an [`EvalResult`]: whether it succeeded, a message, and
//! the values the tool renders as the result's data. The interactive
//! explorer's answer to one line of input is computed by [`repl_step`].

use vstd::prelude::*;
use crate::util::{
    debug_list, debug_list_string, decimal, decimal_string, owned, parse_usize, parsed_usize, seq_sum, str_eq,
    sum_parts,
};

verus! {

/// A one-shot evaluation command.
#[derive(Debug)]
pub enum EvalCommand {
    /// Describe the Grassmannian Gr(k,n).
    Create { k: usize, n: usize },
    /// Describe granting a capability to a principal.
    Grant { principal: String, capability: String, partition: Option<Vec<usize>>, kind: Option<String> },
    /// Describe checking a principal against capabilities.
    Check { principal: String, capabilities: Vec<String> },
    /// Describe a stability analysis of a principal.
    Stability { principal: String },
    /// Describe revoking a capability from a principal.
    Revoke { principal: String, capability: String },
    /// Describe listing capabilities and principals.
    List,
    /// Describe composing two principals through their capabilities.
    Compose { a: String, cap_a: String, b: String, cap_b: String },
}

/// The values a command's result carries.
#[derive(Debug)]
pub enum EvalData {
    /// A valid Grassmannian: its parameters, dimension and preset label.
    Created { k: usize, n: usize, dimension: usize, label: &'static str },
    /// A grant: the partition and kind after defaults, and the codimension.
    Granted { principal: String, capability: String, partition: Vec<usize>, kind: String, codimension: usize },
    /// A check request.
    Checked { principal: String, capabilities: Vec<String> },
    /// A stability request.
    Stability { principal: String },
    /// A revocation.
    Revoked { principal: String, capability: String },
    /// A listing request.
    Listed,
    /// A composition request.
    Composed { a: String, cap_a: String, b: String, cap_b: String },
}

/// The result of a one-shot evaluation.
#[derive(Debug)]
pub struct EvalResult {
    /// Whether the command was accepted.
    pub success: bool,
    /// A human-readable description of the outcome.
    pub message: String,
    /// The values of the outcome, when it was accepted.
    pub data: Option<EvalData>,
}

/// How `{:?}` renders a list of strings.
pub uninterp spec fn debug_strings(v: Seq<Seq<char>>) -> Seq<char>;

/// The views of a list of strings.
pub open spec fn views(v: Seq<String>) -> Seq<Seq<char>> {
    Seq::new(v.len(), |i: int| v[i]@)
}

/// Renders a list of strings with `{:?}` (quoted, escaped, comma
/// separated, in brackets); the rendering is named.
#[verifier::external_body]
fn debug_string_list(v: &Vec<String>) -> (r: String)
    ensures
        r@ == debug_strings(views(v@)),
{
    format!("{v:?}")
}

/// The preset label of Gr(k,n).
pub open spec fn preset_label(k: usize, n: usize) -> Seq<char> {
    if k == 2 && n == 4 {
        "Standard RBAC"@
    } else if k == 3 && n == 6 {
        "Multi-tenant"@
    } else if k == 4 && n == 8 {
        "Enterprise"@
    } else {
        "Custom"@
    }
}

/// The partition a grant uses: the given one, or [1].
pub open spec fn grant_partition(p: Option<Vec<usize>>) -> Seq<usize> {
    match p {
        Some(v) => v@,
        None => seq![1usize],
    }
}

/// The kind a grant uses: the given one, or "ReadLike".
pub open spec fn grant_kind(kind: Option<String>) -> Seq<char> {
    match kind {
        Some(s) => s@,
        None => "ReadLike"@,
    }
}

/// The arithmetic of evaluating the command stays within `usize`.
pub open spec fn eval_fits(cmd: EvalCommand) -> bool {
    match cmd {
        EvalCommand::Create { k, n } => 0 < k < n ==> k * (n - k) <= usize::MAX,
        EvalCommand::Grant { partition, .. } => seq_sum(grant_partition(partition)) <= usize::MAX,
        _ => true,
    }
}

/// What evaluating a command returns.
pub open spec fn eval_result(cmd: EvalCommand, r: EvalResult) -> bool {
    match cmd {
        EvalCommand::Create { k, n } => if k == 0 || n == 0 || k >= n {
            &&& !r.success
            &&& r.message@ == "Invalid Grassmannian: Gr("@ + decimal(k as nat) + ","@ + decimal(n as nat)
                + ") requires 0 < k < n"@
            &&& r.data is None
        } else {
            &&& r.success
            &&& r.message@ == "Created Gr("@ + decimal(k as nat) + ","@ + decimal(n as nat) + ") — "@
                + preset_label(k, n) + " — dimension "@ + decimal((k * (n - k)) as nat)
            &&& r.data matches Some(EvalData::Created { k: dk, n: dn, dimension, label })
                && dk == k && dn == n && dimension == k * (n - k) && label@ == preset_label(k, n)
        },
        EvalCommand::Grant { principal, capability, partition, kind } => {
            &&& r.success
            &&& r.message@ == "Granted '"@ + capability@ + "' (partition "@ + debug_list(grant_partition(partition))
                + ", "@ + grant_kind(kind) + ") to "@ + principal@
            &&& r.data matches Some(EvalData::Granted { principal: dp, capability: dc, partition: dpart, kind: dk, codimension })
                && dp@ == principal@ && dc@ == capability@ && dpart@ == grant_partition(partition)
                && dk@ == grant_kind(kind) && codimension == seq_sum(grant_partition(partition))
        },
        EvalCommand::Check { principal, capabilities } => {
            &&& r.success
            &&& r.message@ == "Check "@ + principal@ + " for "@ + debug_strings(views(capabilities@))
            &&& r.data matches Some(EvalData::Checked { principal: dp, capabilities: dc })
                && dp@ == principal@ && views(dc@) == views(capabilities@)
        },
        EvalCommand::Stability { principal } => {
            &&& r.success
            &&& r.message@ == "Stability analysis for "@ + principal@
            &&& r.data matches Some(EvalData::Stability { principal: dp }) && dp@ == principal@
        },
        EvalCommand::Revoke { principal, capability } => {
            &&& r.success
            &&& r.message@ == "Revoked '"@ + capability@ + "' from "@ + principal@
            &&& r.data matches Some(EvalData::Revoked { principal: dp, capability: dc }) && dp@ == principal@
                && dc@ == capability@
        },
        EvalCommand::List => {
            &&& r.success
            &&& r.message@ == "Listing all registered capabilities and principals"@
            &&& r.data matches Some(EvalData::Listed)
        },
        EvalCommand::Compose { a, cap_a, b, cap_b } => {
            &&& r.success
            &&& r.message@ == "Composing "@ + a@ + "::"@ + cap_a@ + " with "@ + b@ + "::"@ + cap_b@
            &&& r.data matches Some(EvalData::Composed { a: da, cap_a: dca, b: db, cap_b: dcb })
                && da@ == a@ && dca@ == cap_a@ && db@ == b@ && dcb@ == cap_b@
        },
    }
}

/// Evaluate a one-shot command.
pub fn eval_command(cmd: EvalCommand) -> (r: EvalResult)
    requires
        eval_fits(cmd),
    ensures
        eval_result(cmd, r),
{
    match cmd {
        EvalCommand::Create { k, n } => {
            if k == 0 || n == 0 || k >= n {
                let mut m = String::from_str("Invalid Grassmannian: Gr(");
                let ks = decimal_string(k);
                m.append(ks.as_str());
                m.append(",");
                let ns = decimal_string(n);
                m.append(ns.as_str());
                m.append(") requires 0 < k < n");
                return EvalResult { success: false, message: m, data: None };
            }
            let dim = k * (n - k);
            let label: &'static str = if k == 2 && n == 4 {
                "Standard RBAC"
            } else if k == 3 && n == 6 {
                "Multi-tenant"
            } else if k == 4 && n == 8 {
                "Enterprise"
            } else {
                "Custom"
            };
            let mut m = String::from_str("Created Gr(");
            let ks = decimal_string(k);
            m.append(ks.as_str());
            m.append(",");
            let ns = decimal_string(n);
            m.append(ns.as_str());
            m.append(") — ");
            m.append(label);
            m.append(" — dimension ");
            let ds = decimal_string(dim);
            m.append(ds.as_str());
            EvalResult {
                success: true,
                message: m,
                data: Some(EvalData::Created { k, n, dimension: dim, label }),
            }
        },
        EvalCommand::Grant { principal, capability, partition, kind } => {
            let part = match partition {
                Some(p) => p,
                None => {
                    let mut v: Vec<usize> = Vec::new();
                    v.push(1);
                    v
                },
            };
            let kind_str = match kind {
                Some(s) => s,
                None => owned("ReadLike"),
            };
            let mut m = String::from_str("Granted '");
            m.append(capability.as_str());
            m.append("' (partition ");
            let ps = debug_list_string(part.as_slice());
            m.append(ps.as_str());
            m.append(", ");
            m.append(kind_str.as_str());
            m.append(") to ");
            m.append(principal.as_str());
            let codimension = sum_parts(part.as_slice());
            EvalResult {
                success: true,
                message: m,
                data: Some(EvalData::Granted { principal, capability, partition: part, kind: kind_str, codimension }),
            }
        },
        EvalCommand::Check { principal, capabilities } => {
            let mut m = String::from_str("Check ");
            m.append(principal.as_str());
            m.append(" for ");
            let cs = debug_string_list(&capabilities);
            m.append(cs.as_str());
            EvalResult { success: true, message: m, data: Some(EvalData::Checked { principal, capabilities }) }
        },
        EvalCommand::Stability { principal } => {
            let mut m = String::from_str("Stability analysis for ");
            m.append(principal.as_str());
            EvalResult { success: true, message: m, data: Some(EvalData::Stability { principal }) }
        },
        EvalCommand::Revoke { principal, capability } => {
            let mut m = String::from_str("Revoked '");
            m.append(capability.as_str());
            m.append("' from ");
            m.append(principal.as_str());
            EvalResult { success: true, message: m, data: Some(EvalData::Revoked { principal, capability }) }
        },
        EvalCommand::List => EvalResult {
            success: true,
            message: owned("Listing all registered capabilities and principals"),
            data: Some(EvalData::Listed),
        },
        EvalCommand::Compose { a, cap_a, b, cap_b } => {
            let mut m = String::from_str("Composing ");
            m.append(a.as_str());
            m.append("::");
            m.append(cap_a.as_str());
            m.append(" with ");
            m.append(b.as_str());
            m.append("::");
            m.append(cap_b.as_str());
            EvalResult { success: true, message: m, data: Some(EvalData::Composed { a, cap_a, b, cap_b }) }
        },
    }
}


// ── Interactive explorer ──────────────────────────────────────────────

/// The explorer's help text.
pub open spec fn repl_help() -> Seq<Seq<char>> {
    seq![
        "Commands:"@,
        "  create <k> <n>          — Describe a Grassmannian Gr(k,n)"@,
        "  info                     — Show Schubert overview"@,
        "  stability <principal>    — Describe stability analysis"@,
        "  compose <a> <cap> <b> <cap> — Describe composition"@,
        "  help                     — Show this help"@,
        "  exit | quit              — Exit the REPL"@,
        ""@,
        "For full evaluation, use one-shot mode:"@,
        "  schubert explore --eval '{\"action\":\"create\",\"k\":2,\"n\":4}'"@,
    ]
}

/// The explorer's overview text.
pub open spec fn repl_info() -> Seq<Seq<char>> {
    seq![
        "Schubert — quantitative access control via Schubert calculus"@,
        "  Grassmannians: Gr(2,4), Gr(3,6), Gr(4,8)"@,
        "  Decisions: Granted{n}, Impossible, Denied, Underconstrained"@,
        "  Features: controller, composition, stability, audit, multi, routing,"@,
        "            rate_limit, crdt, surreal_trust, crypto, verify, holographic"@,
    ]
}

/// A `create` argument: its number, or the default when it does not parse.
pub open spec fn create_arg(w: Seq<char>, default: usize) -> usize {
    match parsed_usize(w) {
        Some(v) => v,
        None => default,
    }
}

/// A line's `create` command names a valid Grassmannian whose dimension
/// k(n−k), which the explorer prints, fits `usize`.
pub open spec fn repl_fits(words: Seq<Seq<char>>) -> bool {
    words.len() == 3 && words[0] == "create"@ ==> {
        let k = create_arg(words[1], 2);
        let n = create_arg(words[2], 4);
        1 <= k && 2 <= n && k < n ==> k * (n - k) <= usize::MAX
    }
}

/// The explorer's answer to the words of one line: the lines it prints and
/// whether it goes on reading.
pub open spec fn repl_response(words: Seq<Seq<char>>) -> (Seq<Seq<char>>, bool) {
    if words.len() == 0 {
        (Seq::empty(), true)
    } else {
        let c = words[0];
        if c == "help"@ {
            (repl_help(), true)
        } else if c == "exit"@ || c == "quit"@ {
            (seq!["Goodbye."@], false)
        } else if c == "create"@ {
            if words.len() == 3 {
                let k = create_arg(words[1], 2);
                let n = create_arg(words[2], 4);
                if 1 <= k && 2 <= n && k < n {
                    (seq!["Created controller Gr("@ + decimal(k as nat) + ","@ + decimal(n as nat) + ") — dimension "@
                        + decimal((k * (n - k)) as nat)], true)
                } else {
                    (seq!["Error: "@ + ("invalid Grassmannian Gr("@ + decimal(k as nat) + ","@ + decimal(n as nat)
                        + "): "@ + "require k ≥ 1, n ≥ 2, k < n"@)], true)
                }
            } else {
                (seq!["Usage: create <k> <n>  — e.g., create 2 4"@], true)
            }
        } else if c == "grant"@ {
            (seq![
                "Grant: use create+grant in a program — REPL is for exploration."@,
                "Try: 'stability <principal>' or 'compose <a> <cap_a> <b> <cap_b>'"@,
            ], true)
        } else if c == "check"@ {
            (seq![
                "Check: use AccessController::check() in a program."@,
                "This REPL demonstrates concepts. Full evaluation: `schubert explore --eval`"@,
            ], true)
        } else if c == "stability"@ {
            if words.len() == 2 {
                (seq![
                    "Stability analysis for '"@ + words[1] + "':"@,
                    "  In a real session, this would call analyze_stability()"@,
                    "  Phase diagram shows trust breakpoints where capabilities become unstable."@,
                ], true)
            } else {
                (seq!["Usage: stability <principal>"@], true)
            }
        } else if c == "compose"@ {
            if words.len() == 5 {
                (seq![
                    "Composing "@ + words[1] + "::"@ + words[2] + " with "@ + words[3] + "::"@ + words[4] + ":"@,
                    "  Operadic composition checks if capabilities are geometrically compatible."@,
                    "  Result includes multiplicity: how many configurations survive composition."@,
                ], true)
            } else {
                (seq!["Usage: compose <principal_a> <cap_a> <principal_b> <cap_b>"@], true)
            }
        } else if c == "info"@ {
            (repl_info(), true)
        } else {
            (seq!["Unknown command: "@ + debug_strings(words) + ". Type 'help' for commands."@], true)
        }
    }
}

fn text_lines(lines: &[&str]) -> (r: Vec<String>)
    ensures
        views(r@) == Seq::new(lines@.len(), |i: int| lines@[i]@),
{
    let mut out: Vec<String> = Vec::new();
    let mut i: usize = 0;
    while i < lines.len()
        invariant
            i <= lines@.len(),
            out@.len() == i,
            views(out@) == Seq::new(i as nat, |t: int| lines@[t]@),
        decreases lines.len() - i,
    {
        let ghost before = out@;
        out.push(owned(lines[i]));
        assert forall|t: int| 0 <= t < i + 1 implies #[trigger] views(out@)[t] == lines@[t]@ by {
            if t < i {
                assert(out@[t] == before[t]);
                assert(views(before)[t] == lines@[t]@);
            }
        }
        assert(views(out@) =~= Seq::new((i + 1) as nat, |t: int| lines@[t]@));
        i = i + 1;
    }
    out
}

fn one_line(line: String) -> (r: Vec<String>)
    ensures
        views(r@) == seq![line@],
{
    let mut out: Vec<String> = Vec::new();
    out.push(line);
    assert(views(out@) =~= seq![line@]);
    out
}

/// The explorer's answer to one line of input, given its words (split at
/// whitespace): the lines to print and whether to go on reading.
pub fn repl_step(words: &Vec<String>) -> (r: (Vec<String>, bool))
    requires
        repl_fits(views(words@)),
    ensures
        views(r.0@) == repl_response(views(words@)).0,
        r.1 == repl_response(views(words@)).1,
{
    let ghost w = views(words@);
    if words.len() == 0 {
        let none: Vec<String> = Vec::new();
        assert(views(none@) =~= Seq::<Seq<char>>::empty());
        return (none, true);
    }
    assert(w[0] == words@[0]@);
    let c = words[0].as_str();
    if str_eq(c, "help") {
        let lines = text_lines(&[
            "Commands:",
            "  create <k> <n>          — Describe a Grassmannian Gr(k,n)",
            "  info                     — Show Schubert overview",
            "  stability <principal>    — Describe stability analysis",
            "  compose <a> <cap> <b> <cap> — Describe composition",
            "  help                     — Show this help",
            "  exit | quit              — Exit the REPL",
            "",
            "For full evaluation, use one-shot mode:",
            "  schubert explore --eval '{\"action\":\"create\",\"k\":2,\"n\":4}'",
        ]);
        assert(views(lines@) =~= repl_help());
        (lines, true)
    } else if str_eq(c, "exit") || str_eq(c, "quit") {
        (one_line(owned("Goodbye.")), false)
    } else if str_eq(c, "create") {
        if words.len() == 3 {
            assert(w[1] == words@[1]@ && w[2] == words@[2]@);
            let k = match parse_usize(words[1].as_str()) {
                Some(v) => v,
                None => 2,
            };
            let n = match parse_usize(words[2].as_str()) {
                Some(v) => v,
                None => 4,
            };
            match crate::controller::AccessController::new(k, n) {
                Ok(_) => {
                    let mut s = String::from_str("Created controller Gr(");
                    s.append(decimal_string(k).as_str());
                    s.append(",");
                    s.append(decimal_string(n).as_str());
                    s.append(") — dimension ");
                    s.append(decimal_string(k * (n - k)).as_str());
                    (one_line(s), true)
                },
                Err(e) => {
                    let mut s = String::from_str("Error: ");
                    s.append(e.message().as_str());
                    (one_line(s), true)
                },
            }
        } else {
            (one_line(owned("Usage: create <k> <n>  — e.g., create 2 4")), true)
        }
    } else if str_eq(c, "grant") {
        let lines = text_lines(&[
            "Grant: use create+grant in a program — REPL is for exploration.",
            "Try: 'stability <principal>' or 'compose <a> <cap_a> <b> <cap_b>'",
        ]);
        assert(views(lines@) =~= repl_response(w).0);
        (lines, true)
    } else if str_eq(c, "check") {
        let lines = text_lines(&[
            "Check: use AccessController::check() in a program.",
            "This REPL demonstrates concepts. Full evaluation: `schubert explore --eval`",
        ]);
        assert(views(lines@) =~= repl_response(w).0);
        (lines, true)
    } else if str_eq(c, "stability") {
        if words.len() == 2 {
            assert(w[1] == words@[1]@);
            let mut first = String::from_str("Stability analysis for '");
            first.append(words[1].as_str());
            first.append("':");
            let mut out: Vec<String> = Vec::new();
            out.push(first);
            out.push(owned("  In a real session, this would call analyze_stability()"));
            out.push(owned("  Phase diagram shows trust breakpoints where capabilities become unstable."));
            assert(views(out@) =~= repl_response(w).0);
            (out, true)
        } else {
            (one_line(owned("Usage: stability <principal>")), true)
        }
    } else if str_eq(c, "compose") {
        if words.len() == 5 {
            assert(w[1] == words@[1]@ && w[2] == words@[2]@ && w[3] == words@[3]@ && w[4] == words@[4]@);
            let mut first = String::from_str("Composing ");
            first.append(words[1].as_str());
            first.append("::");
            first.append(words[2].as_str());
            first.append(" with ");
            first.append(words[3].as_str());
            first.append("::");
            first.append(words[4].as_str());
            first.append(":");
            let mut out: Vec<String> = Vec::new();
            out.push(first);
            out.push(owned("  Operadic composition checks if capabilities are geometrically compatible."));
            out.push(owned("  Result includes multiplicity: how many configurations survive composition."));
            assert(views(out@) =~= repl_response(w).0);
            (out, true)
        } else {
            (one_line(owned("Usage: compose <principal_a> <cap_a> <principal_b> <cap_b>")), true)
        }
    } else if str_eq(c, "info") {
        let lines = text_lines(&[
            "Schubert — quantitative access control via Schubert calculus",
            "  Grassmannians: Gr(2,4), Gr(3,6), Gr(4,8)",
            "  Decisions: Granted{n}, Impossible, Denied, Underconstrained",
            "  Features: controller, composition, stability, audit, multi, routing,",
            "            rate_limit, crdt, surreal_trust, crypto, verify, holographic",
        ]);
        assert(views(lines@) =~= repl_info());
        (lines, true)
    } else {
        let mut s = String::from_str("Unknown command: ");
        s.append(debug_string_list(words).as_str());
        s.append(". Type 'help' for commands.");
        (one_line(s), true)
    }
}

} // verus!
