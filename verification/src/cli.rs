use vstd::prelude::*;

use crate::parser::{kind_name, StepKind};
use crate::text::str_eq;

verus! {

/// The command-line arguments as strings.
pub open spec fn arg_views(args: Seq<String>) -> Seq<Seq<char>> {
    args.map_values(|a: String| a@)
}

/// What the program is asked to do, before any subcommand flag is read.
#[derive(Debug)]
pub enum Invocation {
    /// `--help` or `-h` stands anywhere among the arguments.
    Help,
    /// `--version` or `-V` stands anywhere (and no help flag).
    Version,
    /// There is no argument at all.
    NoSubcommand,
    Resolve,
    Scan,
    List,
    /// The first argument names no subcommand.
    Unknown(String),
}

pub enum InvocationView {
    Help,
    Version,
    NoSubcommand,
    Resolve,
    Scan,
    List,
    Unknown(Seq<char>),
}

impl View for Invocation {
    type V = InvocationView;

    open spec fn view(&self) -> InvocationView {
        match self {
            Invocation::Help => InvocationView::Help,
            Invocation::Version => InvocationView::Version,
            Invocation::NoSubcommand => InvocationView::NoSubcommand,
            Invocation::Resolve => InvocationView::Resolve,
            Invocation::Scan => InvocationView::Scan,
            Invocation::List => InvocationView::List,
            Invocation::Unknown(s) => InvocationView::Unknown(s@),
        }
    }
}

pub open spec fn mentions(args: Seq<Seq<char>>, a: Seq<char>, b: Seq<char>) -> bool {
    exists|i: int| 0 <= i < args.len() && (args[i] == a || args[i] == b)
}

pub open spec fn invocation_of(args: Seq<Seq<char>>) -> InvocationView {
    if mentions(args, "--help"@, "-h"@) {
        InvocationView::Help
    } else if mentions(args, "--version"@, "-V"@) {
        InvocationView::Version
    } else if args.len() == 0 {
        InvocationView::NoSubcommand
    } else if args[0] == "resolve"@ {
        InvocationView::Resolve
    } else if args[0] == "scan"@ {
        InvocationView::Scan
    } else if args[0] == "list"@ {
        InvocationView::List
    } else {
        InvocationView::Unknown(args[0])
    }
}

fn mentions_exec(args: &[String], a: &str, b: &str) -> (r: bool)
    ensures
        r == mentions(arg_views(args@), a@, b@),
{
    let mut i: usize = 0;
    while i < args.len()
        invariant
            0 <= i <= args@.len(),
            forall|j: int| 0 <= j < i ==> !(args@[j]@ == a@ || args@[j]@ == b@),
        decreases args@.len() - i,
    {
        if str_eq(args[i].as_str(), a) || str_eq(args[i].as_str(), b) {
            assert(arg_views(args@)[i as int] == args@[i as int]@);
            return true;
        }
        i = i + 1;
    }
    assert forall|j: int| 0 <= j < args@.len() implies !(arg_views(args@)[j] == a@ || arg_views(
        args@,
    )[j] == b@) by {
        assert(arg_views(args@)[j] == args@[j]@);
    }
    false
}

/// Decides what the command line asks for; help wins over version, and both
/// over any subcommand.
pub fn classify(args: &[String]) -> (r: Invocation)
    ensures
        r@ == invocation_of(arg_views(args@)),
{
    if mentions_exec(args, "--help", "-h") {
        return Invocation::Help;
    }
    if mentions_exec(args, "--version", "-V") {
        return Invocation::Version;
    }
    if args.len() == 0 {
        return Invocation::NoSubcommand;
    }
    let sub = args[0].as_str();
    assert(arg_views(args@)[0] == args@[0]@);
    if str_eq(sub, "resolve") {
        Invocation::Resolve
    } else if str_eq(sub, "scan") {
        Invocation::Scan
    } else if str_eq(sub, "list") {
        Invocation::List
    } else {
        Invocation::Unknown(args[0].clone())
    }
}

/// Why a command line was refused.
#[derive(Debug)]
pub enum ArgError {
    /// A complete message.
    Message(String),
    /// `--kind` got this value, which names no kind.
    InvalidKind(String),
}

pub enum ArgErrorView {
    Message(Seq<char>),
    InvalidKind(Seq<char>),
}

impl View for ArgError {
    type V = ArgErrorView;

    open spec fn view(&self) -> ArgErrorView {
        match self {
            ArgError::Message(m) => ArgErrorView::Message(m@),
            ArgError::InvalidKind(v) => ArgErrorView::InvalidKind(v@),
        }
    }
}

/// The value of `--kind`: a concrete kind, or `None` (any kind) for "And",
/// "But", "", "null" and "any"; `None` here when the value names nothing.
pub open spec fn kind_arg(v: Seq<char>) -> Option<Option<StepKind>> {
    if v == "Given"@ {
        Some(Some(StepKind::Given))
    } else if v == "When"@ {
        Some(Some(StepKind::When))
    } else if v == "Then"@ {
        Some(Some(StepKind::Then))
    } else if v == "And"@ || v == "But"@ || v == ""@ || v == "null"@ || v == "any"@ {
        Some(None)
    } else {
        None
    }
}

pub fn parse_kind(v: &str) -> (r: Result<Option<StepKind>, ArgError>)
    ensures
        match r {
            Ok(k) => kind_arg(v@) == Some(k),
            Err(e) => kind_arg(v@) is None && e@ == ArgErrorView::InvalidKind(v@),
        },
{
    if str_eq(v, "Given") {
        Ok(Some(StepKind::Given))
    } else if str_eq(v, "When") {
        Ok(Some(StepKind::When))
    } else if str_eq(v, "Then") {
        Ok(Some(StepKind::Then))
    } else if str_eq(v, "And") || str_eq(v, "But") || str_eq(v, "") || str_eq(v, "null") || str_eq(
        v,
        "any",
    ) {
        Ok(None)
    } else {
        Err(ArgError::InvalidKind(v.to_owned()))
    }
}

/// The options that every subcommand shares.
#[derive(Debug)]
pub struct CommonOpts {
    pub root: Option<String>,
    pub cache: Option<String>,
    pub no_cache: bool,
}

pub struct CommonOptsView {
    pub root: Option<Seq<char>>,
    pub cache: Option<Seq<char>>,
    pub no_cache: bool,
}

pub open spec fn opt_str_view(o: Option<String>) -> Option<Seq<char>> {
    match o {
        Some(s) => Some(s@),
        None => None,
    }
}

impl View for CommonOpts {
    type V = CommonOptsView;

    open spec fn view(&self) -> CommonOptsView {
        CommonOptsView {
            root: opt_str_view(self.root),
            cache: opt_str_view(self.cache),
            no_cache: self.no_cache,
        }
    }
}

/// Reads `--root DIR`, `--cache PATH` and `--no-cache` from `args[i..]`
/// (a later flag overrides an earlier one) and keeps every other argument,
/// in order, for the subcommand. A `--root` or `--cache` with nothing after
/// it is an error.
pub open spec fn common_from(
    args: Seq<Seq<char>>,
    i: int,
    opts: CommonOptsView,
    left: Seq<Seq<char>>,
) -> Result<(CommonOptsView, Seq<Seq<char>>), Seq<char>>
    decreases args.len() - i,
{
    if i < 0 || i >= args.len() {
        Ok((opts, left))
    } else if args[i] == "--root"@ {
        if i + 1 < args.len() {
            common_from(args, i + 2, CommonOptsView { root: Some(args[i + 1]), ..opts }, left)
        } else {
            Err("flag \"--root\" expects a value"@)
        }
    } else if args[i] == "--cache"@ {
        if i + 1 < args.len() {
            common_from(args, i + 2, CommonOptsView { cache: Some(args[i + 1]), ..opts }, left)
        } else {
            Err("flag \"--cache\" expects a value"@)
        }
    } else if args[i] == "--no-cache"@ {
        common_from(args, i + 1, CommonOptsView { no_cache: true, ..opts }, left)
    } else {
        common_from(args, i + 1, opts, left.push(args[i]))
    }
}

pub open spec fn common_of(args: Seq<Seq<char>>) -> Result<(CommonOptsView, Seq<Seq<char>>), Seq<char>> {
    common_from(args, 0, CommonOptsView { root: None, cache: None, no_cache: false }, Seq::empty())
}

/// Splits off the shared options; the other arguments are left in order.
pub fn parse_common(args: &[String]) -> (r: Result<(CommonOpts, Vec<String>), String>)
    ensures
        match r {
            Ok((opts, left)) => common_of(arg_views(args@)) == Ok::<_, Seq<char>>(
                (opts@, arg_views(left@)),
            ),
            Err(m) => common_of(arg_views(args@)) == Err::<(CommonOptsView, Seq<Seq<char>>), _>(
                m@,
            ),
        },
{
    let ghost a = arg_views(args@);
    let mut opts = CommonOpts { root: None, cache: None, no_cache: false };
    let mut leftover: Vec<String> = Vec::new();
    let mut i: usize = 0;
    assert(arg_views(leftover@) =~= Seq::<Seq<char>>::empty());
    while i < args.len()
        invariant
            a == arg_views(args@),
            a.len() == args@.len(),
            0 <= i <= args@.len() + 1,
            common_of(a) == common_from(a, i as int, opts@, arg_views(leftover@)),
        decreases args@.len() + 1 - i,
    {
        let arg = args[i].as_str();
        assert(a[i as int] == arg@);
        if str_eq(arg, "--root") {
            if i + 1 >= args.len() {
                return Err("flag \"--root\" expects a value".to_owned());
            }
            assert(a[i + 1] == args@[i + 1]@);
            opts.root = Some(args[i + 1].clone());
            i = i + 2;
        } else if str_eq(arg, "--cache") {
            if i + 1 >= args.len() {
                return Err("flag \"--cache\" expects a value".to_owned());
            }
            assert(a[i + 1] == args@[i + 1]@);
            opts.cache = Some(args[i + 1].clone());
            i = i + 2;
        } else if str_eq(arg, "--no-cache") {
            opts.no_cache = true;
            i = i + 1;
        } else {
            let ghost before = leftover@;
            leftover.push(args[i].clone());
            assert(arg_views(leftover@) =~= arg_views(before).push(a[i as int]));
            i = i + 1;
        }
    }
    Ok((opts, leftover))
}

/// Where the index cache lives.
#[derive(Debug)]
pub enum CachePlan {
    /// `--no-cache`: build from scratch and persist nothing.
    Disabled,
    /// `--cache PATH`.
    At(String),
    /// The default cache file for the root.
    Default,
}

pub enum CachePlanView {
    Disabled,
    At(Seq<char>),
    Default,
}

impl View for CachePlan {
    type V = CachePlanView;

    open spec fn view(&self) -> CachePlanView {
        match self {
            CachePlan::Disabled => CachePlanView::Disabled,
            CachePlan::At(p) => CachePlanView::At(p@),
            CachePlan::Default => CachePlanView::Default,
        }
    }
}

/// The root to index and where its cache lives.
#[derive(Debug)]
pub struct IndexPlan {
    pub root: String,
    pub cache: CachePlan,
}

pub struct IndexPlanView {
    pub root: Seq<char>,
    pub cache: CachePlanView,
}

impl View for IndexPlan {
    type V = IndexPlanView;

    open spec fn view(&self) -> IndexPlanView {
        IndexPlanView { root: self.root@, cache: self.cache@ }
    }
}

/// A root is required; `--no-cache` wins over `--cache`.
pub open spec fn index_plan_of(opts: CommonOptsView) -> Result<IndexPlanView, Seq<char>> {
    match opts.root {
        None => Err("--root is required"@),
        Some(root) => Ok(
            IndexPlanView {
                root,
                cache: if opts.no_cache {
                    CachePlanView::Disabled
                } else {
                    match opts.cache {
                        Some(p) => CachePlanView::At(p),
                        None => CachePlanView::Default,
                    }
                },
            },
        ),
    }
}

pub fn plan_index(opts: &CommonOpts) -> (r: Result<IndexPlan, String>)
    ensures
        match r {
            Ok(p) => index_plan_of(opts@) == Ok::<_, Seq<char>>(p@),
            Err(m) => index_plan_of(opts@) == Err::<IndexPlanView, _>(m@),
        },
{
    let root = match &opts.root {
        Some(r) => r.clone(),
        None => {
            return Err("--root is required".to_owned());
        },
    };
    let cache = if opts.no_cache {
        CachePlan::Disabled
    } else {
        match &opts.cache {
            Some(p) => CachePlan::At(p.clone()),
            None => CachePlan::Default,
        }
    };
    Ok(IndexPlan { root, cache })
}

/// Reads `--kind K` and `--step TEXT` from `rest[i..]`; anything else is an
/// unknown flag.
pub open spec fn resolve_flags_from(
    rest: Seq<Seq<char>>,
    i: int,
    kind: Option<StepKind>,
    step: Option<Seq<char>>,
) -> Result<(Option<StepKind>, Option<Seq<char>>), ArgErrorView>
    decreases rest.len() - i,
{
    if i < 0 || i >= rest.len() {
        Ok((kind, step))
    } else if rest[i] == "--kind"@ {
        if i + 1 >= rest.len() {
            Err(ArgErrorView::Message("--kind expects a value"@))
        } else {
            match kind_arg(rest[i + 1]) {
                None => Err(ArgErrorView::InvalidKind(rest[i + 1])),
                Some(k) => resolve_flags_from(rest, i + 2, k, step),
            }
        }
    } else if rest[i] == "--step"@ {
        if i + 1 >= rest.len() {
            Err(ArgErrorView::Message("--step expects a value"@))
        } else {
            resolve_flags_from(rest, i + 2, kind, Some(rest[i + 1]))
        }
    } else {
        Err(ArgErrorView::Message("unknown flag for resolve: "@ + rest[i]))
    }
}

/// A `resolve` request: the index to build and the step to look up.
#[derive(Debug)]
pub struct ResolvePlan {
    pub index: IndexPlan,
    pub kind: Option<StepKind>,
    pub step: String,
}

pub struct ResolvePlanView {
    pub index: IndexPlanView,
    pub kind: Option<StepKind>,
    pub step: Seq<char>,
}

impl View for ResolvePlan {
    type V = ResolvePlanView;

    open spec fn view(&self) -> ResolvePlanView {
        ResolvePlanView { index: self.index@, kind: self.kind, step: self.step@ }
    }
}

/// The `resolve` arguments, checked in the order the flags are read: shared
/// options, resolve flags, the step, then the root.
pub open spec fn resolve_plan_of(args: Seq<Seq<char>>) -> Result<ResolvePlanView, ArgErrorView> {
    match common_of(args) {
        Err(m) => Err(ArgErrorView::Message(m)),
        Ok((opts, rest)) => match resolve_flags_from(rest, 0, None, None) {
            Err(e) => Err(e),
            Ok((kind, step)) => match step {
                None => Err(ArgErrorView::Message("--step is required"@)),
                Some(step) => match index_plan_of(opts) {
                    Err(m) => Err(ArgErrorView::Message(m)),
                    Ok(index) => Ok(ResolvePlanView { index, kind, step }),
                },
            },
        },
    }
}

fn message(m: &str) -> (r: ArgError)
    ensures
        r@ == ArgErrorView::Message(m@),
{
    ArgError::Message(m.to_owned())
}

/// Reads the arguments of `resolve` (those after the subcommand's name).
pub fn plan_resolve(args: &[String]) -> (r: Result<ResolvePlan, ArgError>)
    ensures
        match r {
            Ok(p) => resolve_plan_of(arg_views(args@)) == Ok::<_, ArgErrorView>(p@),
            Err(e) => resolve_plan_of(arg_views(args@)) == Err::<ResolvePlanView, _>(e@),
        },
{
    let (common, rest) = match parse_common(args) {
        Ok(pair) => pair,
        Err(m) => {
            return Err(ArgError::Message(m));
        },
    };
    let ghost rv = arg_views(rest@);
    let mut kind: Option<StepKind> = None;
    let mut step: Option<String> = None;
    let mut i: usize = 0;
    while i < rest.len()
        invariant
            rv == arg_views(rest@),
            rv.len() == rest@.len(),
            common_of(arg_views(args@)) == Ok::<_, Seq<char>>((common@, rv)),
            0 <= i <= rest@.len() + 1,
            resolve_flags_from(rv, 0, None, None) == resolve_flags_from(
                rv,
                i as int,
                kind,
                opt_str_view(step),
            ),
        decreases rest@.len() + 1 - i,
    {
        let flag = rest[i].as_str();
        assert(rv[i as int] == flag@);
        if str_eq(flag, "--kind") {
            if i + 1 >= rest.len() {
                return Err(message("--kind expects a value"));
            }
            assert(rv[i + 1] == rest@[i + 1]@);
            kind = parse_kind(rest[i + 1].as_str())?;
            i = i + 2;
        } else if str_eq(flag, "--step") {
            if i + 1 >= rest.len() {
                return Err(message("--step expects a value"));
            }
            assert(rv[i + 1] == rest@[i + 1]@);
            step = Some(rest[i + 1].clone());
            i = i + 2;
        } else {
            let mut m = "unknown flag for resolve: ".to_owned();
            crate::text::push_str(&mut m, flag);
            return Err(ArgError::Message(m));
        }
    }
    let step = match step {
        Some(s) => s,
        None => {
            return Err(message("--step is required"));
        },
    };
    let index = match plan_index(&common) {
        Ok(p) => p,
        Err(m) => {
            return Err(ArgError::Message(m));
        },
    };
    Ok(ResolvePlan { index, kind, step })
}

/// Reads `--feature PATH` from `rest[i..]`; anything else is an unknown flag.
pub open spec fn scan_flags_from(rest: Seq<Seq<char>>, i: int, feature: Option<Seq<char>>) -> Result<
    Option<Seq<char>>,
    Seq<char>,
>
    decreases rest.len() - i,
{
    if i < 0 || i >= rest.len() {
        Ok(feature)
    } else if rest[i] == "--feature"@ {
        if i + 1 >= rest.len() {
            Err("--feature expects a value"@)
        } else {
            scan_flags_from(rest, i + 2, Some(rest[i + 1]))
        }
    } else {
        Err("unknown flag for scan: "@ + rest[i])
    }
}

/// A `scan` request: the index to build and the feature file to read.
#[derive(Debug)]
pub struct ScanPlan {
    pub index: IndexPlan,
    pub feature: String,
}

pub struct ScanPlanView {
    pub index: IndexPlanView,
    pub feature: Seq<char>,
}

impl View for ScanPlan {
    type V = ScanPlanView;

    open spec fn view(&self) -> ScanPlanView {
        ScanPlanView { index: self.index@, feature: self.feature@ }
    }
}

pub open spec fn scan_plan_of(args: Seq<Seq<char>>) -> Result<ScanPlanView, Seq<char>> {
    match common_of(args) {
        Err(m) => Err(m),
        Ok((opts, rest)) => match scan_flags_from(rest, 0, None) {
            Err(m) => Err(m),
            Ok(None) => Err("--feature is required"@),
            Ok(Some(feature)) => match index_plan_of(opts) {
                Err(m) => Err(m),
                Ok(index) => Ok(ScanPlanView { index, feature }),
            },
        },
    }
}

/// Reads the arguments of `scan` (those after the subcommand's name).
pub fn plan_scan(args: &[String]) -> (r: Result<ScanPlan, String>)
    ensures
        match r {
            Ok(p) => scan_plan_of(arg_views(args@)) == Ok::<_, Seq<char>>(p@),
            Err(m) => scan_plan_of(arg_views(args@)) == Err::<ScanPlanView, _>(m@),
        },
{
    let (common, rest) = parse_common(args)?;
    let ghost rv = arg_views(rest@);
    let mut feature: Option<String> = None;
    let mut i: usize = 0;
    while i < rest.len()
        invariant
            rv == arg_views(rest@),
            rv.len() == rest@.len(),
            common_of(arg_views(args@)) == Ok::<_, Seq<char>>((common@, rv)),
            0 <= i <= rest@.len() + 1,
            scan_flags_from(rv, 0, None) == scan_flags_from(rv, i as int, opt_str_view(feature)),
        decreases rest@.len() + 1 - i,
    {
        let flag = rest[i].as_str();
        assert(rv[i as int] == flag@);
        if str_eq(flag, "--feature") {
            if i + 1 >= rest.len() {
                return Err("--feature expects a value".to_owned());
            }
            assert(rv[i + 1] == rest@[i + 1]@);
            feature = Some(rest[i + 1].clone());
            i = i + 2;
        } else {
            let mut m = "unknown flag for scan: ".to_owned();
            crate::text::push_str(&mut m, flag);
            return Err(m);
        }
    }
    let feature = match feature {
        Some(f) => f,
        None => {
            return Err("--feature is required".to_owned());
        },
    };
    let index = plan_index(&common)?;
    Ok(ScanPlan { index, feature })
}

pub open spec fn list_plan_of(args: Seq<Seq<char>>) -> Result<IndexPlanView, Seq<char>> {
    match common_of(args) {
        Err(m) => Err(m),
        Ok((opts, rest)) => if rest.len() > 0 {
            Err("unknown flag for list: "@ + rest[0])
        } else {
            index_plan_of(opts)
        },
    }
}

/// Reads the arguments of `list` (those after the subcommand's name): only
/// the shared options are allowed.
pub fn plan_list(args: &[String]) -> (r: Result<IndexPlan, String>)
    ensures
        match r {
            Ok(p) => list_plan_of(arg_views(args@)) == Ok::<_, Seq<char>>(p@),
            Err(m) => list_plan_of(arg_views(args@)) == Err::<IndexPlanView, _>(m@),
        },
{
    let (common, rest) = parse_common(args)?;
    if rest.len() > 0 {
        assert(arg_views(rest@)[0] == rest@[0]@);
        let mut m = "unknown flag for list: ".to_owned();
        crate::text::push_str(&mut m, rest[0].as_str());
        return Err(m);
    }
    plan_index(&common)
}

// ---- laws -----------------------------------------------------------------

/// The name of every step kind, given to `--kind`, selects that kind.
pub proof fn law_kind_arg_names(k: StepKind)
    ensures
        kind_arg(kind_name(k)) == Some(Some(k)),
{
    reveal_strlit("Given");
    reveal_strlit("When");
    reveal_strlit("Then");
    assert(kind_name(StepKind::Given) =~= "Given"@);
    assert(kind_name(StepKind::When) =~= "When"@);
    assert(kind_name(StepKind::Then) =~= "Then"@);
    assert("When"@ != "Given"@);
    assert("Then"@ != "Given"@);
    assert("Then"@[0] != "When"@[0]);
}

proof fn lemma_common_append(
    a: Seq<Seq<char>>,
    t: Seq<Seq<char>>,
    i: int,
    opts: CommonOptsView,
    left: Seq<Seq<char>>,
)
    requires
        0 <= i <= a.len(),
        common_from(a, i, opts, left) is Ok,
    ensures
        common_from(a + t, i, opts, left) == common_from(
            a + t,
            a.len() as int,
            common_from(a, i, opts, left)->Ok_0.0,
            common_from(a, i, opts, left)->Ok_0.1,
        ),
    decreases a.len() - i,
{
    let at = a + t;
    if i < a.len() {
        assert(at[i] == a[i]);
        if i + 1 < a.len() {
            assert(at[i + 1] == a[i + 1]);
        }
        if a[i] == "--root"@ {
            lemma_common_append(a, t, i + 2, CommonOptsView { root: Some(a[i + 1]), ..opts }, left);
        } else if a[i] == "--cache"@ {
            lemma_common_append(a, t, i + 2, CommonOptsView { cache: Some(a[i + 1]), ..opts }, left);
        } else if a[i] == "--no-cache"@ {
            lemma_common_append(a, t, i + 1, CommonOptsView { no_cache: true, ..opts }, left);
        } else {
            lemma_common_append(a, t, i + 1, opts, left.push(a[i]));
        }
    }
}

proof fn lemma_resolve_flags_append(
    r: Seq<Seq<char>>,
    t: Seq<Seq<char>>,
    i: int,
    kind: Option<StepKind>,
    step: Option<Seq<char>>,
)
    requires
        0 <= i <= r.len(),
        resolve_flags_from(r, i, kind, step) is Ok,
    ensures
        resolve_flags_from(r + t, i, kind, step) == resolve_flags_from(
            r + t,
            r.len() as int,
            resolve_flags_from(r, i, kind, step)->Ok_0.0,
            resolve_flags_from(r, i, kind, step)->Ok_0.1,
        ),
    decreases r.len() - i,
{
    let rt = r + t;
    if i < r.len() {
        assert(rt[i] == r[i]);
        if i + 1 < r.len() {
            assert(rt[i + 1] == r[i + 1]);
        }
        if r[i] == "--kind"@ {
            lemma_resolve_flags_append(r, t, i + 2, kind_arg(r[i + 1])->0, step);
        } else if r[i] == "--step"@ {
            lemma_resolve_flags_append(r, t, i + 2, kind, Some(r[i + 1]));
        }
    }
}

/// Giving `--kind` with the name of a step kind after the arguments of a
/// resolve request that is accepted makes the request look up steps of that
/// kind, and changes nothing else: the kind read from `--kind` is the kind the
/// lookup uses.
pub proof fn law_kind_flag_sets_lookup_kind(args: Seq<Seq<char>>, k: StepKind)
    requires
        resolve_plan_of(args) is Ok,
    ensures
        resolve_plan_of(args + seq!["--kind"@, kind_name(k)]) == Ok::<_, ArgErrorView>(
            ResolvePlanView { kind: Some(k), ..resolve_plan_of(args)->Ok_0 },
        ),
{
    reveal_strlit("--kind");
    reveal_strlit("--root");
    reveal_strlit("--cache");
    reveal_strlit("--no-cache");
    reveal_strlit("--step");
    reveal_strlit("Given");
    reveal_strlit("When");
    reveal_strlit("Then");
    law_kind_arg_names(k);
    let t = seq!["--kind"@, kind_name(k)];
    let empty = CommonOptsView { root: None, cache: None, no_cache: false };
    lemma_common_append(args, t, 0, empty, Seq::empty());
    let (opts, rest) = common_of(args)->Ok_0;
    let at = args + t;
    let n = args.len() as int;
    assert(at[n] == "--kind"@);
    assert(at[n + 1] == kind_name(k));
    assert("--kind"@ != "--root"@ && "--kind"@ != "--cache"@ && "--kind"@ != "--no-cache"@) by {
        assert("--kind"@[2] != "--root"@[2]);
        assert("--kind"@[2] != "--cache"@[2]);
    }
    assert(kind_name(k) != "--root"@ && kind_name(k) != "--cache"@ && kind_name(k)
        != "--no-cache"@) by {
        assert(kind_name(k)[0] != '-');
        assert("--root"@[0] == '-');
        assert("--cache"@[0] == '-');
        assert("--no-cache"@[0] == '-');
    }
    assert(common_from(at, n + 2, opts, rest.push("--kind"@).push(kind_name(k))) == Ok::<
        _,
        Seq<char>,
    >((opts, rest.push("--kind"@).push(kind_name(k)))));
    let rest2 = rest.push("--kind"@).push(kind_name(k));
    assert(common_from(at, n + 1, opts, rest.push("--kind"@)) == common_from(
        at,
        n + 2,
        opts,
        rest2,
    ));
    assert(common_from(at, n, opts, rest) == common_from(at, n + 1, opts, rest.push("--kind"@)));
    assert(common_of(at) == common_from(at, n, opts, rest));
    assert(common_of(at) == Ok::<_, Seq<char>>((opts, rest2)));
    assert(rest2 =~= rest + t);
    lemma_resolve_flags_append(rest, t, 0, None, None);
    let (kind0, step0) = resolve_flags_from(rest, 0, None, None)->Ok_0;
    let m = rest.len() as int;
    assert(rest2[m] == "--kind"@);
    assert(rest2[m + 1] == kind_name(k));
    assert(resolve_flags_from(rest2, m + 2, Some(k), step0) == Ok::<_, ArgErrorView>(
        (Some(k), step0),
    ));
    assert(resolve_flags_from(rest2, 0, None, None) == Ok::<_, ArgErrorView>((Some(k), step0)));
}

} // verus!
