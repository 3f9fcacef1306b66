use vstd::prelude::*;

verus! {

/// One finding from a generated design-rule report, or one persisted
/// suppression decision: the report and the suppression record share this
/// shape.  The pair `(path, moniker)` identifies the finding; `justification`
/// is the only field a review session ever edits.
#[derive(Debug, PartialEq, Eq)]
pub struct Diagnostic {
    pub diagnostic_type: String,
    pub severity: String,
    pub path: String,
    pub moniker: String,
    pub message: String,
    pub justification: String,
}

/// The mathematical value of a `Diagnostic`: every field as its character
/// sequence.
#[verifier::ext_equal]
pub struct DiagView {
    pub diagnostic_type: Seq<char>,
    pub severity: Seq<char>,
    pub path: Seq<char>,
    pub moniker: Seq<char>,
    pub message: Seq<char>,
    pub justification: Seq<char>,
}

impl View for Diagnostic {
    type V = DiagView;

    open spec fn view(&self) -> DiagView {
        DiagView {
            diagnostic_type: self.diagnostic_type@,
            severity: self.severity@,
            path: self.path@,
            moniker: self.moniker@,
            message: self.message@,
            justification: self.justification@,
        }
    }
}

impl Clone for Diagnostic {
    fn clone(&self) -> (r: Self)
        ensures
            r@ == self@,
    {
        Diagnostic {
            diagnostic_type: self.diagnostic_type.clone(),
            severity: self.severity.clone(),
            path: self.path.clone(),
            moniker: self.moniker.clone(),
            message: self.message.clone(),
            justification: self.justification.clone(),
        }
    }
}

/// The identity of a finding: its design-element path and its rule moniker.
pub open spec fn key_of(d: DiagView) -> (Seq<char>, Seq<char>) {
    (d.path, d.moniker)
}

/// `d` with its justification replaced and every other field kept.
pub open spec fn with_just(d: DiagView, j: Seq<char>) -> DiagView {
    DiagView { justification: j, ..d }
}

/// The views of a sequence of diagnostics.
pub open spec fn views(s: Seq<Diagnostic>) -> Seq<DiagView> {
    s.map_values(|d: Diagnostic| d@)
}

/// The severity value that marks a finding as purely informational.
pub open spec fn informational() -> Seq<char> {
    "Informational"@
}

/// The active subset of a report: every finding whose severity is not
/// informational, in report order.
pub open spec fn active(s: Seq<DiagView>) -> Seq<DiagView> {
    s.filter(|d: DiagView| d.severity != informational())
}

/// Drops the informational findings from a freshly loaded report, keeping
/// the rest in order: only the result ever becomes visible to a review
/// session.
pub fn filter_informational(items: Vec<Diagnostic>) -> (r: Vec<Diagnostic>)
    ensures
        views(r@) == active(views(items@)),
{
    let informational_label: String = "Informational".to_owned();
    let mut out: Vec<Diagnostic> = Vec::new();
    let n = items.len();
    let mut i: usize = 0;
    proof {
        reveal_with_fuel(Seq::<_>::filter, 1);
        assert(views(items@).take(0) =~= Seq::<DiagView>::empty());
        assert(views(out@) =~= active(views(items@).take(0)));
    }
    while i < n
        invariant
            n == items@.len(),
            i <= n,
            informational_label@ == informational(),
            views(out@) == active(views(items@).take(i as int)),
        decreases n - i,
    {
        let ghost out0 = views(out@);
        let keep = !(items[i].severity == informational_label);
        if keep {
            out.push(items[i].clone());
        }
        proof {
            reveal_with_fuel(Seq::<_>::filter, 2);
            let t1 = views(items@).take(i + 1);
            assert(t1.drop_last() =~= views(items@).take(i as int));
            assert(t1.last() == items@[i as int]@);
            assert(t1.len() == i + 1);
            if keep {
                assert(views(out@) =~= out0.push(items@[i as int]@));
                assert(active(t1) == active(t1.drop_last()).push(t1.last()));
            } else {
                assert(views(out@) =~= out0);
                assert(active(t1) == active(t1.drop_last()));
            }
            assert(views(out@) == active(t1));
        }
        i += 1;
    }
    proof {
        assert(views(items@).take(n as int) =~= views(items@));
    }
    out
}

/// The collection element of a diagnostic report document: its ordered
/// findings.
pub struct Items {
    pub diagnostic: Vec<Diagnostic>,
}

/// A whole diagnostic report document.
pub struct Diagnostics {
    pub items: Items,
}

/// The session configuration: where the models live and which models are
/// open for review.
pub struct Config {
    pub modelpath: String,
    pub models: Vec<String>,
}

} // verus!
