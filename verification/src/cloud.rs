//! The physical state of one interstellar cloud, and the descriptor
//! ingestion protocol: parse each line, dispatch on its keyword, register
//! emitters, then check the hydrogen invariant and mark derived quantities.

use crate::hydrogen::{check_hydrogen_sum, hydrogen_sum_is_unity};
use crate::scalar::{parse_scalar, spec_parse_scalar, Scalar};
use crate::text::{
    ci_match, find_char, find_char_from, rskip_spaces, skip_spaces, skip_spaces_from, spec_tokens,
    spec_trim, tokenize, upper_seq,
};
use vstd::prelude::*;
use vstd::string::StrSliceExecFns;
use vstd::string::StringExecFns;

verus! {

/// Elemental and molecular composition of the cloud's gas. The derived
/// quantities (mean masses, ionization cost, heat capacity) live with an
/// out-of-scope collaborator; here only their readiness is tracked.
#[allow(non_snake_case)]
#[derive(Clone, Copy, Debug)]
pub struct Composition {
    pub xHI: Scalar,
    pub xHplus: Scalar,
    pub xpH2: Scalar,
    pub xoH2: Scalar,
    pub xH2: Scalar,
    pub xHe: Scalar,
    pub xe: Scalar,
    pub H2OPR: Option<Scalar>,
    /// mean masses and ionization cost have been computed
    pub derived_ready: bool,
    /// the heat capacity has been computed
    pub cv_ready: bool,
}

/// Dust grain properties of the cloud.
#[allow(non_snake_case)]
#[derive(Clone, Copy, Debug)]
pub struct DustProp {
    pub alphaGD: Scalar,
    pub sigma10: Scalar,
    pub sigmaPE: Scalar,
    pub sigmaISRF: Scalar,
    pub Zd: Scalar,
    pub beta: Scalar,
}

/// The ambient radiation field impinging on the cloud.
#[allow(non_snake_case)]
#[derive(Clone, Copy, Debug)]
pub struct Radiation {
    pub TCMB: Scalar,
    pub TradDust: Scalar,
    pub fdDilute: Scalar,
    pub ionRate: Scalar,
    pub chi: Scalar,
}

/// Opaque handle to a time-dependent chemistry integrator; stored, never
/// constructed or called by this crate.
#[derive(Clone, Copy, Debug)]
pub struct ChemNetwork {}

/// One emitting species registered on a cloud.
#[allow(non_snake_case)]
#[derive(Debug)]
pub struct Emitter {
    pub name: String,
    pub abundance: Scalar,
    pub energySkip: bool,
    pub extrap: bool,
    pub emitterFile: Option<String>,
    pub emitterURL: Option<String>,
}

/// Mathematical model of an emitter: names as character sequences.
#[allow(non_snake_case)]
pub struct EmitterView {
    pub name: Seq<char>,
    pub abundance: Scalar,
    pub energySkip: bool,
    pub extrap: bool,
    pub emitterFile: Option<Seq<char>>,
    pub emitterURL: Option<Seq<char>>,
}

impl View for Emitter {
    type V = EmitterView;

    open spec fn view(&self) -> EmitterView {
        EmitterView {
            name: self.name@,
            abundance: self.abundance,
            energySkip: self.energySkip,
            extrap: self.extrap,
            emitterFile: match self.emitterFile {
                Option::Some(f) => Option::Some(f@),
                Option::None => Option::None,
            },
            emitterURL: match self.emitterURL {
                Option::Some(u) => Option::Some(u@),
                Option::None => Option::None,
            },
        }
    }
}

/// Why an ingestion failed; each carries the offending text verbatim.
#[derive(Debug)]
pub enum CloudError {
    /// the descriptor could not be opened (raised by callers doing I/O)
    SourceUnavailable { path: String },
    /// a directive line lacks `=` or has an empty value
    MalformedLine { line: String },
    /// the key matches no keyword of the dispatch table
    UnrecognizedKeyword { keyword: String },
    /// an `EMITTER` value with a wrong token count or unreadable abundance
    MalformedEmitterDirective { line: String },
    /// an `EMITTER` option token that matches no recognized option
    UnrecognizedEmitterOption { token: String },
    /// the hydrogen abundances do not sum to one
    InvariantViolation,
}

/// Mathematical model of an ingestion error.
pub enum CloudErrorView {
    SourceUnavailable { path: Seq<char> },
    MalformedLine { line: Seq<char> },
    UnrecognizedKeyword { keyword: Seq<char> },
    MalformedEmitterDirective { line: Seq<char> },
    UnrecognizedEmitterOption { token: Seq<char> },
    InvariantViolation,
}

impl View for CloudError {
    type V = CloudErrorView;

    open spec fn view(&self) -> CloudErrorView {
        match self {
            CloudError::SourceUnavailable { path } => CloudErrorView::SourceUnavailable {
                path: path@,
            },
            CloudError::MalformedLine { line } => CloudErrorView::MalformedLine { line: line@ },
            CloudError::UnrecognizedKeyword { keyword } => CloudErrorView::UnrecognizedKeyword {
                keyword: keyword@,
            },
            CloudError::MalformedEmitterDirective { line } => CloudErrorView::MalformedEmitterDirective {
                line: line@,
            },
            CloudError::UnrecognizedEmitterOption { token } => CloudErrorView::UnrecognizedEmitterOption {
                token: token@,
            },
            CloudError::InvariantViolation => CloudErrorView::InvariantViolation,
        }
    }
}

/// The physical state of one interstellar cloud.
#[allow(non_snake_case)]
#[derive(Debug)]
pub struct Cloud {
    /// number density of H nuclei, cm^-3
    pub nH: Scalar,
    /// center-to-edge column density of H nuclei, cm^-2
    pub colDen: Scalar,
    /// non-thermal velocity dispersion, cm s^-1
    pub sigmaNT: Scalar,
    /// radial velocity gradient, s^-1
    pub dVdr: Scalar,
    /// gas kinetic temperature, K
    pub Tg: Scalar,
    /// dust temperature, K
    pub Td: Scalar,
    pub comp: Composition,
    pub dust: DustProp,
    pub rad: Radiation,
    /// registered emitting species; names are unique, last declaration wins
    pub emitters: Vec<Emitter>,
    pub chemnetwork: Option<ChemNetwork>,
    /// suppress convergence warnings in downstream solvers
    pub noWarn: bool,
}

/// Mathematical model of a cloud: the emitter registry as a map.
#[allow(non_snake_case)]
pub struct CloudView {
    pub nH: Scalar,
    pub colDen: Scalar,
    pub sigmaNT: Scalar,
    pub dVdr: Scalar,
    pub Tg: Scalar,
    pub Td: Scalar,
    pub comp: Composition,
    pub dust: DustProp,
    pub rad: Radiation,
    pub emitters: Map<Seq<char>, EmitterView>,
    pub chemnetwork: Option<ChemNetwork>,
    pub noWarn: bool,
}

/// The registry map of an emitter list: later entries override earlier ones.
pub open spec fn emap(s: Seq<EmitterView>) -> Map<Seq<char>, EmitterView>
    decreases s.len(),
{
    if s.len() == 0 {
        Map::empty()
    } else {
        emap(s.drop_last()).insert(s.last().name, s.last())
    }
}

/// No two registered emitters share a name.
pub open spec fn names_unique(s: Seq<EmitterView>) -> bool {
    forall|i: int, j: int|
        0 <= i < j < s.len() ==> (#[trigger] s[i]).name != (#[trigger] s[j]).name
}

/// The models of a cloud's registered emitters, in registration order.
pub open spec fn emitter_views(c: Cloud) -> Seq<EmitterView> {
    c.emitters@.map_values(|e: Emitter| e@)
}

impl View for Cloud {
    type V = CloudView;

    open spec fn view(&self) -> CloudView {
        CloudView {
            nH: self.nH,
            colDen: self.colDen,
            sigmaNT: self.sigmaNT,
            dVdr: self.dVdr,
            Tg: self.Tg,
            Td: self.Td,
            comp: self.comp,
            dust: self.dust,
            rad: self.rad,
            emitters: emap(emitter_views(*self)),
            chemnetwork: self.chemnetwork,
            noWarn: self.noWarn,
        }
    }
}

impl Composition {
    pub open spec fn wf(self) -> bool {
        &&& self.xHI.wf()
        &&& self.xHplus.wf()
        &&& self.xpH2.wf()
        &&& self.xoH2.wf()
        &&& self.xH2.wf()
        &&& self.xHe.wf()
        &&& self.xe.wf()
        &&& match self.H2OPR {
            Option::Some(v) => v.wf(),
            Option::None => true,
        }
    }
}

impl Cloud {
    /// Every scalar is well-formed and the emitter names are unique.
    pub open spec fn wf(self) -> bool {
        &&& self.nH.wf()
        &&& self.colDen.wf()
        &&& self.sigmaNT.wf()
        &&& self.dVdr.wf()
        &&& self.Tg.wf()
        &&& self.Td.wf()
        &&& self.comp.wf()
        &&& self.dust.alphaGD.wf()
        &&& self.dust.sigma10.wf()
        &&& self.dust.sigmaPE.wf()
        &&& self.dust.sigmaISRF.wf()
        &&& self.dust.Zd.wf()
        &&& self.dust.beta.wf()
        &&& self.rad.TCMB.wf()
        &&& self.rad.TradDust.wf()
        &&& self.rad.fdDilute.wf()
        &&& self.rad.ionRate.wf()
        &&& self.rad.chi.wf()
        &&& names_unique(emitter_views(self))
    }
}

/// The state of a freshly constructed cloud: every physical field zero,
/// nothing registered, nothing derived.
pub open spec fn spec_empty_cloud(no_warn: bool) -> CloudView {
    let z = Scalar { neg: false, mag: 0, exp: 0 };
    CloudView {
        nH: z,
        colDen: z,
        sigmaNT: z,
        dVdr: z,
        Tg: z,
        Td: z,
        comp: Composition {
            xHI: z,
            xHplus: z,
            xpH2: z,
            xoH2: z,
            xH2: z,
            xHe: z,
            xe: z,
            H2OPR: Option::None,
            derived_ready: false,
            cv_ready: false,
        },
        dust: DustProp { alphaGD: z, sigma10: z, sigmaPE: z, sigmaISRF: z, Zd: z, beta: z },
        rad: Radiation { TCMB: z, TradDust: z, fdDilute: z, ionRate: z, chi: z },
        emitters: Map::empty(),
        chemnetwork: Option::None,
        noWarn: no_warn,
    }
}

/// A line whose first non-space character is `#` is a full-line comment.
pub open spec fn is_comment_line(line: Seq<char>) -> bool {
    let a = skip_spaces_from(line, 0);
    a < line.len() && line[a] == '#'
}

/// A line the parser skips: blank, or a full-line comment.
pub open spec fn is_noop_line(line: Seq<char>) -> bool {
    line.len() == 0 || is_comment_line(line)
}

/// The ortho-to-para ratio assumed when `XH2` appears before any `H2OPR`.
pub open spec fn default_opr() -> Scalar {
    Scalar { neg: false, mag: 25, exp: -2i64 }
}

/// Registration of an emitter: the latest declaration of a name wins.
pub open spec fn register_view(c: CloudView, e: EmitterView) -> CloudView {
    CloudView { emitters: c.emitters.insert(e.name, e), ..c }
}

/// Option tokens of an `EMITTER` directive, applied left to right from
/// token index `i`.
pub open spec fn spec_apply_opts(
    e: EmitterView,
    val: Seq<char>,
    toks: Seq<(int, int)>,
    i: int,
) -> Result<EmitterView, CloudErrorView>
    decreases toks.len() - i,
{
    if i < 0 || i >= toks.len() {
        Result::Ok(e)
    } else {
        let t = val.subrange(toks[i].0, toks[i].1);
        if upper_seq(t) == "ENERGYSKIP"@ {
            spec_apply_opts(EmitterView { energySkip: true, ..e }, val, toks, i + 1)
        } else if upper_seq(t) == "EXTRAPOLATE"@ {
            // accepted for backward compatibility; no effect
            spec_apply_opts(e, val, toks, i + 1)
        } else if upper_seq(t) == "NOEXTRAP"@ {
            spec_apply_opts(EmitterView { extrap: false, ..e }, val, toks, i + 1)
        } else if t.len() >= 5 && upper_seq(t.subrange(0, 5)) == "FILE:"@ {
            spec_apply_opts(
                EmitterView { emitterFile: Option::Some(t.subrange(5, t.len() as int)), ..e },
                val,
                toks,
                i + 1,
            )
        } else if t.len() >= 4 && upper_seq(t.subrange(0, 4)) == "URL:"@ {
            spec_apply_opts(
                EmitterView { emitterURL: Option::Some(t.subrange(4, t.len() as int)), ..e },
                val,
                toks,
                i + 1,
            )
        } else {
            Result::Err(CloudErrorView::UnrecognizedEmitterOption { token: t })
        }
    }
}

/// The `EMITTER` sub-parser: 2 to 6 whitespace tokens; a species name, an
/// abundance, then option tokens.
pub open spec fn spec_emitter_line(
    c: CloudView,
    line: Seq<char>,
    val: Seq<char>,
) -> Result<CloudView, CloudErrorView> {
    let toks = spec_tokens(val);
    if toks.len() < 2 || toks.len() > 6 {
        Result::Err(CloudErrorView::MalformedEmitterDirective { line: line })
    } else {
        let name = val.subrange(toks[0].0, toks[0].1);
        match spec_parse_scalar(val.subrange(toks[1].0, toks[1].1)) {
            Option::None => Result::Err(
                CloudErrorView::MalformedEmitterDirective { line: line },
            ),
            Option::Some(ab) => {
                let e0 = EmitterView {
                    name: name,
                    abundance: ab,
                    energySkip: false,
                    extrap: true,
                    emitterFile: Option::None,
                    emitterURL: Option::None,
                };
                match spec_apply_opts(e0, val, toks, 2) {
                    Result::Err(err) => Result::Err(err),
                    Result::Ok(e) => Result::Ok(register_view(c, e)),
                }
            },
        }
    }
}

/// Keyword dispatch on a normalized key: each keyword assigns one field from
/// the parsed value; `XH2` also defaults the ortho-to-para ratio; `EMITTER`
/// runs the sub-parser; anything else is unrecognized.
pub open spec fn spec_dispatch(
    c: CloudView,
    line: Seq<char>,
    key: Seq<char>,
    val: Seq<char>,
) -> Result<CloudView, CloudErrorView> {
    let k = upper_seq(spec_trim(key));
    if k == "EMITTER"@ {
        spec_emitter_line(c, line, val)
    } else if !keyword_known(k) {
        Result::Err(CloudErrorView::UnrecognizedKeyword { keyword: spec_trim(key) })
    } else {
        match spec_parse_scalar(val) {
            Option::None => Result::Err(CloudErrorView::MalformedLine { line: line }),
            Option::Some(v) => Result::Ok(assign_field(c, k, v)),
        }
    }
}

/// The keywords that assign a numeric field.
pub open spec fn keyword_known(k: Seq<char>) -> bool {
    ||| k == "NH"@
    ||| k == "COLDEN"@
    ||| k == "SIGMANT"@
    ||| k == "DVDR"@
    ||| k == "TG"@
    ||| k == "TD"@
    ||| k == "ALPHAGD"@
    ||| k == "SIGMAD10"@
    ||| k == "SIGMADPE"@
    ||| k == "SIGMADISRF"@
    ||| k == "ZDUST"@
    ||| k == "BETADUST"@
    ||| k == "XHI"@
    ||| k == "XPH2"@
    ||| k == "XOH2"@
    ||| k == "H2OPR"@
    ||| k == "XH2"@
    ||| k == "XHE"@
    ||| k == "XE"@
    ||| k == "XH+"@
    ||| k == "TCMB"@
    ||| k == "TRADDUST"@
    ||| k == "RADDUTDILUTION"@
    ||| k == "IONRATE"@
    ||| k == "CHI"@
}

/// The field assignment of each numeric keyword. `XH+` writes the electron
/// fraction, a historical alias kept for descriptor compatibility.
pub open spec fn assign_field(c: CloudView, k: Seq<char>, v: Scalar) -> CloudView {
    if k == "NH"@ {
        CloudView { nH: v, ..c }
    } else if k == "COLDEN"@ {
        CloudView { colDen: v, ..c }
    } else if k == "SIGMANT"@ {
        CloudView { sigmaNT: v, ..c }
    } else if k == "DVDR"@ {
        CloudView { dVdr: v, ..c }
    } else if k == "TG"@ {
        CloudView { Tg: v, ..c }
    } else if k == "TD"@ {
        CloudView { Td: v, ..c }
    } else if k == "ALPHAGD"@ {
        CloudView { dust: DustProp { alphaGD: v, ..c.dust }, ..c }
    } else if k == "SIGMAD10"@ {
        CloudView { dust: DustProp { sigma10: v, ..c.dust }, ..c }
    } else if k == "SIGMADPE"@ {
        CloudView { dust: DustProp { sigmaPE: v, ..c.dust }, ..c }
    } else if k == "SIGMADISRF"@ {
        CloudView { dust: DustProp { sigmaISRF: v, ..c.dust }, ..c }
    } else if k == "ZDUST"@ {
        CloudView { dust: DustProp { Zd: v, ..c.dust }, ..c }
    } else if k == "BETADUST"@ {
        CloudView { dust: DustProp { beta: v, ..c.dust }, ..c }
    } else if k == "XHI"@ {
        CloudView { comp: Composition { xHI: v, ..c.comp }, ..c }
    } else if k == "XPH2"@ {
        CloudView { comp: Composition { xpH2: v, ..c.comp }, ..c }
    } else if k == "XOH2"@ {
        CloudView { comp: Composition { xoH2: v, ..c.comp }, ..c }
    } else if k == "H2OPR"@ {
        CloudView { comp: Composition { H2OPR: Option::Some(v), ..c.comp }, ..c }
    } else if k == "XH2"@ {
        let opr = if c.comp.H2OPR is None {
            Option::Some(default_opr())
        } else {
            c.comp.H2OPR
        };
        CloudView { comp: Composition { xH2: v, H2OPR: opr, ..c.comp }, ..c }
    } else if k == "XHE"@ {
        CloudView { comp: Composition { xHe: v, ..c.comp }, ..c }
    } else if k == "XE"@ {
        CloudView { comp: Composition { xe: v, ..c.comp }, ..c }
    } else if k == "XH+"@ {
        CloudView { comp: Composition { xe: v, ..c.comp }, ..c }
    } else if k == "TCMB"@ {
        CloudView { rad: Radiation { TCMB: v, ..c.rad }, ..c }
    } else if k == "TRADDUST"@ {
        CloudView { rad: Radiation { TradDust: v, ..c.rad }, ..c }
    } else if k == "RADDUTDILUTION"@ {
        CloudView { rad: Radiation { fdDilute: v, ..c.rad }, ..c }
    } else if k == "IONRATE"@ {
        CloudView { rad: Radiation { ionRate: v, ..c.rad }, ..c }
    } else {
        CloudView { rad: Radiation { chi: v, ..c.rad }, ..c }
    }
}

/// What one descriptor line does to the state: skip, assign, register, or
/// fail. Classification order: blank, comment, then `KEY = VALUE [# ...]`.
pub open spec fn spec_apply_line(c: CloudView, line: Seq<char>) -> Result<
    CloudView,
    CloudErrorView,
> {
    if line.len() == 0 {
        Result::Ok(c)
    } else if is_comment_line(line) {
        Result::Ok(c)
    } else {
        let ep = find_char_from(line, 0, '=');
        if ep == line.len() {
            Result::Err(CloudErrorView::MalformedLine { line: line })
        } else {
            let key = line.subrange(0, ep);
            let rest = line.subrange(ep + 1, line.len() as int);
            if rest.len() == 0 {
                Result::Err(CloudErrorView::MalformedLine { line: line })
            } else {
                let val = rest.subrange(0, find_char_from(rest, 0, '#'));
                spec_dispatch(c, line, key, val)
            }
        }
    }
}

/// Ingestion of a line sequence: every line applied in order; the first
/// failure aborts.
pub open spec fn spec_ingest(c: CloudView, lines: Seq<Seq<char>>) -> Result<
    CloudView,
    CloudErrorView,
>
    decreases lines.len(),
{
    if lines.len() == 0 {
        Result::Ok(c)
    } else {
        match spec_apply_line(c, lines[0]) {
            Result::Err(e) => Result::Err(e),
            Result::Ok(c2) => spec_ingest(c2, lines.drop_first()),
        }
    }
}

/// Post-parse validation: the hydrogen invariant must hold exactly; then the
/// derived composition quantities are computed, and the heat capacity exactly
/// when a gas temperature is set.
pub open spec fn spec_validate(c: CloudView) -> Result<CloudView, CloudErrorView> {
    if !hydrogen_sum_is_unity(c.comp.xHI, c.comp.xHplus, c.comp.xpH2, c.comp.xoH2) {
        Result::Err(CloudErrorView::InvariantViolation)
    } else {
        Result::Ok(
            CloudView {
                comp: Composition {
                    derived_ready: true,
                    cv_ready: c.Tg.is_positive(),
                    ..c.comp
                },
                ..c
            },
        )
    }
}

/// The whole ingestion protocol: parse every line, then validate and derive.
pub open spec fn spec_read(c: CloudView, lines: Seq<Seq<char>>) -> Result<
    CloudView,
    CloudErrorView,
> {
    match spec_ingest(c, lines) {
        Result::Err(e) => Result::Err(e),
        Result::Ok(c2) => spec_validate(c2),
    }
}

/// Registering at an index with the same name is a map insertion.
proof fn lemma_emap_update(s: Seq<EmitterView>, i: int, e: EmitterView)
    requires
        0 <= i < s.len(),
        names_unique(s),
        s[i].name == e.name,
    ensures
        emap(s.update(i, e)) =~= emap(s).insert(e.name, e),
        names_unique(s.update(i, e)),
    decreases s.len(),
{
    if i == s.len() - 1 {
        assert(s.update(i, e).drop_last() =~= s.drop_last());
        assert(s.update(i, e).last() == e);
        assert(emap(s.drop_last()).insert(s.last().name, s.last()).insert(e.name, e) =~= emap(
            s.drop_last(),
        ).insert(e.name, e));
    } else {
        assert(names_unique(s.drop_last()));
        lemma_emap_update(s.drop_last(), i, e);
        assert(s.update(i, e).drop_last() =~= s.drop_last().update(i, e));
        assert(s.update(i, e).last() == s.last());
        assert(s.last().name != e.name);
        assert(emap(s.drop_last()).insert(e.name, e).insert(s.last().name, s.last()) =~= emap(
            s.drop_last(),
        ).insert(s.last().name, s.last()).insert(e.name, e));
    }
}

/// A name registered at some index is in the registry map with that entry.
proof fn lemma_emap_index(s: Seq<EmitterView>, i: int)
    requires
        0 <= i < s.len(),
        names_unique(s),
    ensures
        emap(s).contains_key(s[i].name),
        emap(s)[s[i].name] == s[i],
    decreases s.len(),
{
    if i == s.len() - 1 {
    } else {
        assert(names_unique(s.drop_last()));
        lemma_emap_index(s.drop_last(), i);
        assert(s.last().name != s[i].name);
    }
}

/// A name registered at no index is not in the registry map.
proof fn lemma_emap_absent(s: Seq<EmitterView>, nm: Seq<char>)
    requires
        forall|t: int| 0 <= t < s.len() ==> (#[trigger] s[t]).name != nm,
    ensures
        !emap(s).contains_key(nm),
    decreases s.len(),
{
    if s.len() > 0 {
        lemma_emap_absent(s.drop_last(), nm);
    }
}

/// Character-wise string equality.
fn str_eq(a: &str, b: &str) -> (r: bool)
    ensures
        r == (a@ == b@),
{
    let alen = a.unicode_len();
    let blen = b.unicode_len();
    if alen != blen {
        return false;
    }
    let mut k: usize = 0;
    while k < alen
        invariant
            k <= alen,
            alen == a@.len(),
            alen == b@.len(),
            forall|t: int| 0 <= t < k ==> a@[t] == b@[t],
        decreases alen - k,
    {
        if a.get_char(k) != b.get_char(k) {
            return false;
        }
        k = k + 1;
    }
    proof {
        assert(a@ =~= b@);
    }
    true
}

/// Inserts or replaces the emitter under its name: the latest declaration of
/// a name wins.
#[verifier::loop_isolation(false)]
fn register_emitter(c: &mut Cloud, e: Emitter)
    requires
        old(c).wf(),
        e.abundance.wf(),
    ensures
        final(c).wf(),
        final(c)@ == register_view(old(c)@, e@),
{
    let n = c.emitters.len();
    let mut i: usize = 0;
    while i < n
        invariant
            i <= n,
            n == c.emitters@.len(),
            *c == *old(c),
            forall|t: int|
                0 <= t < i ==> (#[trigger] c.emitters@[t])@.name != e@.name,
        decreases n - i,
    {
        let same = c.emitters[i].name == e.name;
        if same {
            let ghost pre = emitter_views(*c);
            proof {
                assert(pre[i as int] == c.emitters@[i as int]@);
                assert(pre[i as int].name == e@.name);
                assert(names_unique(pre));
            }
            let _ = c.emitters.remove(i);
            c.emitters.insert(i, e);
            proof {
                assert(c.emitters@ =~= old(c).emitters@.update(i as int, e));
                assert(emitter_views(*c) =~= pre.update(i as int, e@));
                lemma_emap_update(pre, i as int, e@);
                assert(emap(emitter_views(*c)) == emap(pre).insert(e@.name, e@));
                assert(c@ =~= register_view(old(c)@, e@));
            }
            return ;
        }
        i = i + 1;
    }
    let ghost pre = emitter_views(*c);
    proof {
        assert(forall|t: int| 0 <= t < pre.len() ==> (#[trigger] pre[t]).name != e@.name) by {
            assert(forall|t: int|
                0 <= t < pre.len() ==> #[trigger] pre[t] == c.emitters@[t]@);
        };
        assert(names_unique(pre));
    }
    c.emitters.push(e);
    proof {
        let now = emitter_views(*c);
        assert(now.drop_last() =~= pre);
        assert(now.last() == e@);
        assert(emap(now) == emap(pre).insert(e@.name, e@));
        assert(names_unique(now)) by {
            assert(forall|t: int| 0 <= t < pre.len() ==> #[trigger] now[t] == pre[t]);
            assert(now[now.len() - 1] == e@);
        };
        assert(c@ =~= register_view(old(c)@, e@));
    }
}

/// Parses a numeric directive value, or reports the line as malformed.
fn parse_value(line: &String, val: &str) -> (r: Result<Scalar, CloudError>)
    ensures
        match r {
            Result::Ok(v) => spec_parse_scalar(val@) == Option::Some(v) && v.wf(),
            Result::Err(e) => spec_parse_scalar(val@) is None && e@ == (
            CloudErrorView::MalformedLine { line: line@ }),
        },
{
    match parse_scalar(val) {
        Option::Some(v) => Result::Ok(v),
        Option::None => Result::Err(CloudError::MalformedLine { line: line.clone() }),
    }
}

/// The `EMITTER` sub-parser: name, abundance, then option tokens.
#[verifier::loop_isolation(false)]
#[verifier::rlimit(100)]
fn apply_emitter(c: &mut Cloud, line: &String, val: &str) -> (r: Result<(), CloudError>)
    requires
        old(c).wf(),
    ensures
        final(c).wf(),
        match r {
            Result::Ok(()) => spec_emitter_line(old(c)@, line@, val@) == Result::Ok::<
                CloudView,
                CloudErrorView,
            >(final(c)@),
            Result::Err(e) => spec_emitter_line(old(c)@, line@, val@) == Result::Err::<
                CloudView,
                CloudErrorView,
            >(e@) && *final(c) == *old(c),
        },
{
    let vlen = val.unicode_len();
    let toks = tokenize(val, 0, vlen);
    let ghost st = spec_tokens(val@);
    proof {
        assert(val@.subrange(0, vlen as int) =~= val@);
        assert(st.len() == toks@.len());
        assert forall|t: int|
            0 <= t < st.len() implies (#[trigger] st[t]).0 == toks@[t].0 as int && st[t].1
            == toks@[t].1 as int by {
            assert(toks@[t].0 as int == st[t].0 + 0);
            assert(toks@[t].1 as int == st[t].1 + 0);
        }
    }
    if toks.len() < 2 || toks.len() > 6 {
        return Result::Err(CloudError::MalformedEmitterDirective { line: line.clone() });
    }
    let t0 = toks[0];
    let name_s = val.substring_char(t0.0, t0.1);
    let t1 = toks[1];
    let ab_s = val.substring_char(t1.0, t1.1);
    let ab = match parse_scalar(ab_s) {
        Option::Some(v) => v,
        Option::None => {
            return Result::Err(CloudError::MalformedEmitterDirective { line: line.clone() });
        },
    };
    let ghost e0 = EmitterView {
        name: name_s@,
        abundance: ab,
        energySkip: false,
        extrap: true,
        emitterFile: Option::None,
        emitterURL: Option::None,
    };
    let mut energy_skip = false;
    let mut extrap = true;
    let mut efile: Option<String> = Option::None;
    let mut eurl: Option<String> = Option::None;
    let mut idx: usize = 2;
    while idx < toks.len()
        invariant
            *c == *old(c),
            2 <= idx <= toks@.len(),
            st == spec_tokens(val@),
            st.len() == toks@.len(),
            vlen == val@.len(),
            forall|t: int|
                0 <= t < st.len() ==> (#[trigger] st[t]).0 == toks@[t].0 as int && st[t].1
                    == toks@[t].1 as int,
            forall|t: int|
                0 <= t < toks@.len() ==> 0 <= (#[trigger] toks@[t]).0 < toks@[t].1 <= vlen,
            spec_apply_opts(e0, val@, st, 2) == spec_apply_opts(
                EmitterView {
                    name: name_s@,
                    abundance: ab,
                    energySkip: energy_skip,
                    extrap: extrap,
                    emitterFile: match efile {
                        Option::Some(f) => Option::Some(f@),
                        Option::None => Option::None,
                    },
                    emitterURL: match eurl {
                        Option::Some(u) => Option::Some(u@),
                        Option::None => Option::None,
                    },
                },
                val@,
                st,
                idx as int,
            ),
        decreases toks@.len() - idx,
    {
        let tk = toks[idx];
        let tok = val.substring_char(tk.0, tk.1);
        let tlen = tok.unicode_len();
        proof {
            assert(tok@ == val@.subrange(st[idx as int].0, st[idx as int].1));
            assert(tok@.subrange(0, tlen as int) =~= tok@);
        }
        if ci_match(tok, 0, tlen, "ENERGYSKIP") {
            energy_skip = true;
        } else if ci_match(tok, 0, tlen, "EXTRAPOLATE") {
            // accepted for backward compatibility; no effect
        } else if ci_match(tok, 0, tlen, "NOEXTRAP") {
            extrap = false;
        } else if tlen >= 5 && ci_match(tok, 0, 5, "FILE:") {
            efile = Option::Some(String::from_str(tok.substring_char(5, tlen)));
        } else if tlen >= 4 && ci_match(tok, 0, 4, "URL:") {
            eurl = Option::Some(String::from_str(tok.substring_char(4, tlen)));
        } else {
            return Result::Err(
                CloudError::UnrecognizedEmitterOption { token: String::from_str(tok) },
            );
        }
        idx = idx + 1;
    }
    let em = Emitter {
        name: String::from_str(name_s),
        abundance: ab,
        energySkip: energy_skip,
        extrap: extrap,
        emitterFile: efile,
        emitterURL: eurl,
    };
    proof {
        assert(spec_apply_opts(e0, val@, st, 2) == Result::Ok::<EmitterView, CloudErrorView>(em@));
    }
    register_emitter(c, em);
    Result::Ok(())
}

/// One descriptor line applied to the state, exactly as `spec_apply_line`
/// says: skipped, assigned, registered, or failed.
#[verifier::loop_isolation(false)]
#[verifier::rlimit(100)]
fn apply_line(c: &mut Cloud, line: &String) -> (r: Result<(), CloudError>)
    requires
        old(c).wf(),
    ensures
        final(c).wf(),
        match r {
            Result::Ok(()) => spec_apply_line(old(c)@, line@) == Result::Ok::<
                CloudView,
                CloudErrorView,
            >(final(c)@),
            Result::Err(e) => spec_apply_line(old(c)@, line@) == Result::Err::<
                CloudView,
                CloudErrorView,
            >(e@) && *final(c) == *old(c),
        },
{
    let s = line.as_str();
    let n = s.unicode_len();
    if n == 0 {
        return Result::Ok(());
    }
    let a = skip_spaces(s, 0);
    if a < n && s.get_char(a) == '#' {
        return Result::Ok(());
    }
    let ep = find_char(s, 0, '=');
    if ep == n {
        return Result::Err(CloudError::MalformedLine { line: line.clone() });
    }
    let key = s.substring_char(0, ep);
    let rest = s.substring_char(ep + 1, n);
    let rlen = rest.unicode_len();
    if rlen == 0 {
        return Result::Err(CloudError::MalformedLine { line: line.clone() });
    }
    let hp = find_char(rest, 0, '#');
    let val = rest.substring_char(0, hp);
    let klen = key.unicode_len();
    let lo = skip_spaces(key, 0);
    let hi = rskip_spaces(key, klen);
    // an all-whitespace key trims to the empty range
    let hi2 = if hi < lo {
        lo
    } else {
        hi
    };
    proof {
        assert(key@.subrange(lo as int, hi2 as int) =~= spec_trim(key@));
    }
    if ci_match(key, lo, hi2, "EMITTER") {
        let r = apply_emitter(c, line, val);
        return r;
    }
    if ci_match(key, lo, hi2, "NH") {
        match parse_value(line, val) {
            Result::Ok(v) => {
                c.nH = v;
                return Result::Ok(());
            },
            Result::Err(e) => {
                return Result::Err(e);
            },
        }
    }
    if ci_match(key, lo, hi2, "COLDEN") {
        match parse_value(line, val) {
            Result::Ok(v) => {
                c.colDen = v;
                return Result::Ok(());
            },
            Result::Err(e) => {
                return Result::Err(e);
            },
        }
    }
    if ci_match(key, lo, hi2, "SIGMANT") {
        match parse_value(line, val) {
            Result::Ok(v) => {
                c.sigmaNT = v;
                return Result::Ok(());
            },
            Result::Err(e) => {
                return Result::Err(e);
            },
        }
    }
    if ci_match(key, lo, hi2, "DVDR") {
        match parse_value(line, val) {
            Result::Ok(v) => {
                c.dVdr = v;
                return Result::Ok(());
            },
            Result::Err(e) => {
                return Result::Err(e);
            },
        }
    }
    if ci_match(key, lo, hi2, "TG") {
        match parse_value(line, val) {
            Result::Ok(v) => {
                c.Tg = v;
                return Result::Ok(());
            },
            Result::Err(e) => {
                return Result::Err(e);
            },
        }
    }
    if ci_match(key, lo, hi2, "TD") {
        match parse_value(line, val) {
            Result::Ok(v) => {
                c.Td = v;
                return Result::Ok(());
            },
            Result::Err(e) => {
                return Result::Err(e);
            },
        }
    }
    if ci_match(key, lo, hi2, "ALPHAGD") {
        match parse_value(line, val) {
            Result::Ok(v) => {
                c.dust.alphaGD = v;
                return Result::Ok(());
            },
            Result::Err(e) => {
                return Result::Err(e);
            },
        }
    }
    if ci_match(key, lo, hi2, "SIGMAD10") {
        match parse_value(line, val) {
            Result::Ok(v) => {
                c.dust.sigma10 = v;
                return Result::Ok(());
            },
            Result::Err(e) => {
                return Result::Err(e);
            },
        }
    }
    if ci_match(key, lo, hi2, "SIGMADPE") {
        match parse_value(line, val) {
            Result::Ok(v) => {
                c.dust.sigmaPE = v;
                return Result::Ok(());
            },
            Result::Err(e) => {
                return Result::Err(e);
            },
        }
    }
    if ci_match(key, lo, hi2, "SIGMADISRF") {
        match parse_value(line, val) {
            Result::Ok(v) => {
                c.dust.sigmaISRF = v;
                return Result::Ok(());
            },
            Result::Err(e) => {
                return Result::Err(e);
            },
        }
    }
    if ci_match(key, lo, hi2, "ZDUST") {
        match parse_value(line, val) {
            Result::Ok(v) => {
                c.dust.Zd = v;
                return Result::Ok(());
            },
            Result::Err(e) => {
                return Result::Err(e);
            },
        }
    }
    if ci_match(key, lo, hi2, "BETADUST") {
        match parse_value(line, val) {
            Result::Ok(v) => {
                c.dust.beta = v;
                return Result::Ok(());
            },
            Result::Err(e) => {
                return Result::Err(e);
            },
        }
    }
    if ci_match(key, lo, hi2, "XHI") {
        match parse_value(line, val) {
            Result::Ok(v) => {
                c.comp.xHI = v;
                return Result::Ok(());
            },
            Result::Err(e) => {
                return Result::Err(e);
            },
        }
    }
    if ci_match(key, lo, hi2, "XPH2") {
        match parse_value(line, val) {
            Result::Ok(v) => {
                c.comp.xpH2 = v;
                return Result::Ok(());
            },
            Result::Err(e) => {
                return Result::Err(e);
            },
        }
    }
    if ci_match(key, lo, hi2, "XOH2") {
        match parse_value(line, val) {
            Result::Ok(v) => {
                c.comp.xoH2 = v;
                return Result::Ok(());
            },
            Result::Err(e) => {
                return Result::Err(e);
            },
        }
    }
    if ci_match(key, lo, hi2, "H2OPR") {
        match parse_value(line, val) {
            Result::Ok(v) => {
                c.comp.H2OPR = Option::Some(v);
                return Result::Ok(());
            },
            Result::Err(e) => {
                return Result::Err(e);
            },
        }
    }
    if ci_match(key, lo, hi2, "XH2") {
        match parse_value(line, val) {
            Result::Ok(v) => {
                c.comp.xH2 = v;
                // without a prior H2OPR the ortho-to-para ratio defaults
                if c.comp.H2OPR.is_none() {
                    c.comp.H2OPR = Option::Some(Scalar { neg: false, mag: 25, exp: -2i64 });
                }
                return Result::Ok(());
            },
            Result::Err(e) => {
                return Result::Err(e);
            },
        }
    }
    if ci_match(key, lo, hi2, "XHE") {
        match parse_value(line, val) {
            Result::Ok(v) => {
                c.comp.xHe = v;
                return Result::Ok(());
            },
            Result::Err(e) => {
                return Result::Err(e);
            },
        }
    }
    if ci_match(key, lo, hi2, "XE") {
        match parse_value(line, val) {
            Result::Ok(v) => {
                c.comp.xe = v;
                return Result::Ok(());
            },
            Result::Err(e) => {
                return Result::Err(e);
            },
        }
    }
    if ci_match(key, lo, hi2, "XH+") {
        match parse_value(line, val) {
            Result::Ok(v) => {
                // historical alias: XH+ writes the electron fraction
                c.comp.xe = v;
                return Result::Ok(());
            },
            Result::Err(e) => {
                return Result::Err(e);
            },
        }
    }
    if ci_match(key, lo, hi2, "TCMB") {
        match parse_value(line, val) {
            Result::Ok(v) => {
                c.rad.TCMB = v;
                return Result::Ok(());
            },
            Result::Err(e) => {
                return Result::Err(e);
            },
        }
    }
    if ci_match(key, lo, hi2, "TRADDUST") {
        match parse_value(line, val) {
            Result::Ok(v) => {
                c.rad.TradDust = v;
                return Result::Ok(());
            },
            Result::Err(e) => {
                return Result::Err(e);
            },
        }
    }
    if ci_match(key, lo, hi2, "RADDUTDILUTION") {
        match parse_value(line, val) {
            Result::Ok(v) => {
                c.rad.fdDilute = v;
                return Result::Ok(());
            },
            Result::Err(e) => {
                return Result::Err(e);
            },
        }
    }
    if ci_match(key, lo, hi2, "IONRATE") {
        match parse_value(line, val) {
            Result::Ok(v) => {
                c.rad.ionRate = v;
                return Result::Ok(());
            },
            Result::Err(e) => {
                return Result::Err(e);
            },
        }
    }
    if ci_match(key, lo, hi2, "CHI") {
        match parse_value(line, val) {
            Result::Ok(v) => {
                c.rad.chi = v;
                return Result::Ok(());
            },
            Result::Err(e) => {
                return Result::Err(e);
            },
        }
    }
    Result::Err(
        CloudError::UnrecognizedKeyword { keyword: String::from_str(key.substring_char(lo, hi2)) },
    )
}

impl Cloud {
    /// A cloud with every physical field zero and nothing registered.
    pub fn new(no_warn: bool) -> (c: Cloud)
        ensures
            c.wf(),
            c@ == spec_empty_cloud(no_warn),
    {
        let z = Scalar::zero();
        let c = Cloud {
            nH: z,
            colDen: z,
            sigmaNT: z,
            dVdr: z,
            Tg: z,
            Td: z,
            comp: Composition {
                xHI: z,
                xHplus: z,
                xpH2: z,
                xoH2: z,
                xH2: z,
                xHe: z,
                xe: z,
                H2OPR: Option::None,
                derived_ready: false,
                cv_ready: false,
            },
            dust: DustProp { alphaGD: z, sigma10: z, sigmaPE: z, sigmaISRF: z, Zd: z, beta: z },
            rad: Radiation { TCMB: z, TradDust: z, fdDilute: z, ionRate: z, chi: z },
            emitters: Vec::new(),
            chemnetwork: Option::None,
            noWarn: no_warn,
        };
        proof {
            assert(emitter_views(c) =~= Seq::<EmitterView>::empty());
            assert(c@.emitters =~= Map::<Seq<char>, EmitterView>::empty());
            assert(c@ =~= spec_empty_cloud(no_warn));
        }
        c
    }

    /// Ingests a cloud descriptor given as its lines, without terminators:
    /// applies every directive in order, checks the hydrogen invariant, and
    /// marks the derived quantities ready. On an error the state is not
    /// usable; nothing of it is promised.
    #[verifier::loop_isolation(false)]
    pub fn read(&mut self, lines: &Vec<String>) -> (r: Result<(), CloudError>)
        requires
            old(self).wf(),
        ensures
            final(self).wf(),
            match r {
                Result::Ok(()) => spec_read(old(self)@, lines.deep_view()) == Result::Ok::<
                    CloudView,
                    CloudErrorView,
                >(final(self)@),
                Result::Err(e) => spec_read(old(self)@, lines.deep_view()) == Result::Err::<
                    CloudView,
                    CloudErrorView,
                >(e@),
            },
    {
        let ghost dv = lines.deep_view();
        let n = lines.len();
        proof {
            assert(dv.skip(0) =~= dv);
        }
        let mut idx: usize = 0;
        while idx < n
            invariant
                idx <= n,
                n == lines@.len(),
                dv == lines.deep_view(),
                dv.len() == n,
                self.wf(),
                spec_ingest(old(self)@, dv) == spec_ingest(self@, dv.skip(idx as int)),
            decreases n - idx,
        {
            let line = &lines[idx];
            proof {
                assert(line@ == dv[idx as int]);
                assert(dv.skip(idx as int)[0] == dv[idx as int]);
                assert(dv.skip(idx as int).drop_first() =~= dv.skip(idx as int + 1));
            }
            let ghost pre = self@;
            match apply_line(self, line) {
                Result::Ok(()) => {},
                Result::Err(e) => {
                    proof {
                        assert(spec_ingest(pre, dv.skip(idx as int)) == Result::Err::<
                            CloudView,
                            CloudErrorView,
                        >(e@));
                    }
                    return Result::Err(e);
                },
            }
            idx = idx + 1;
        }
        proof {
            assert(dv.skip(n as int) =~= Seq::<Seq<char>>::empty());
            assert(spec_ingest(old(self)@, dv) == Result::Ok::<CloudView, CloudErrorView>(self@));
        }
        if !check_hydrogen_sum(self.comp.xHI, self.comp.xHplus, self.comp.xpH2, self.comp.xoH2) {
            return Result::Err(CloudError::InvariantViolation);
        }
        let ghost mid = self@;
        self.comp.derived_ready = true;
        self.comp.cv_ready = !self.Tg.neg && self.Tg.mag > 0;
        proof {
            assert(spec_validate(mid) == Result::Ok::<CloudView, CloudErrorView>(self@)) by {
                assert(self@ =~= (CloudView {
                    comp: Composition {
                        derived_ready: true,
                        cv_ready: mid.Tg.is_positive(),
                        ..mid.comp
                    },
                    ..mid
                }));
            };
        }
        Result::Ok(())
    }

    /// Looks an emitter up by species name.
    #[verifier::loop_isolation(false)]
    pub fn get_emitter(&self, name: &str) -> (r: Option<&Emitter>)
        requires
            self.wf(),
        ensures
            match r {
                Option::Some(e) => self@.emitters.contains_key(name@) && e@
                    == self@.emitters.index(name@),
                Option::None => !self@.emitters.contains_key(name@),
            },
    {
        let n = self.emitters.len();
        let mut i: usize = 0;
        while i < n
            invariant
                i <= n,
                n == self.emitters@.len(),
                self.wf(),
                forall|t: int|
                    0 <= t < i ==> (#[trigger] self.emitters@[t])@.name != name@,
            decreases n - i,
        {
            if str_eq(self.emitters[i].name.as_str(), name) {
                proof {
                    let vs = emitter_views(*self);
                    assert(vs[i as int] == self.emitters@[i as int]@);
                    lemma_emap_index(vs, i as int);
                }
                return Option::Some(&self.emitters[i]);
            }
            i = i + 1;
        }
        proof {
            let vs = emitter_views(*self);
            assert(forall|t: int|
                0 <= t < vs.len() ==> (#[trigger] vs[t]).name != name@) by {
                assert(forall|t: int|
                    0 <= t < vs.len() ==> #[trigger] vs[t] == self.emitters@[t]@);
            };
            lemma_emap_absent(vs, name@);
        }
        Option::None
    }
}

} // verus!
