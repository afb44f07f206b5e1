//! Path sandboxing for file tools.
//!
//! A tool with allowed roots rejects every path outside them, including one that reaches outside
//! through `..` or a symbolic link. So a path is first resolved against the filesystem, as far
//! as it exists, and what does not exist yet is appended and collapsed. Only then is it held
//! against the roots. Without roots everything is allowed.
//!
//! A path is the list of its components. The filesystem is asked outside: a [`Resolver`] says
//! which path to ask for next. It follows links that lead to what does not exist yet, and asks
//! anew wherever a `..` after something missing changes what the path names.
use vstd::prelude::*;

verus! {

// ---------------------------------------------------------------------------
// Paths
// ---------------------------------------------------------------------------

/// One component of a path.
#[derive(Debug)]
pub enum Component {
    /// A drive or a share, where paths have them.
    Prefix(Vec<u8>),
    /// The root of the filesystem.
    RootDir,
    /// `.`
    CurDir,
    /// `..`
    ParentDir,
    /// The name of a file or a directory.
    Normal(Vec<u8>),
}

/// What a [`Component`] says.
pub enum Part {
    Prefix(Seq<u8>),
    RootDir,
    CurDir,
    ParentDir,
    Normal(Seq<u8>),
}

impl View for Component {
    type V = Part;

    open spec fn view(&self) -> Part {
        match *self {
            Component::Prefix(name) => Part::Prefix(name@),
            Component::RootDir => Part::RootDir,
            Component::CurDir => Part::CurDir,
            Component::ParentDir => Part::ParentDir,
            Component::Normal(name) => Part::Normal(name@),
        }
    }
}

/// What a path says.
pub open spec fn parts(path: Seq<Component>) -> Seq<Part> {
    path.map_values(|component: Component| component@)
}

/// What an optional path says.
pub open spec fn parts_option(path: Option<Vec<Component>>) -> Option<Seq<Part>> {
    match path {
        Some(p) => Some(parts(p@)),
        None => None,
    }
}

fn copy_bytes(bytes: &Vec<u8>) -> (copy: Vec<u8>)
    ensures
        copy@ == bytes@,
{
    let mut copy: Vec<u8> = Vec::new();
    copy.extend_from_slice(bytes.as_slice());
    assert(copy@ =~= bytes@);
    copy
}

impl Clone for Component {
    fn clone(&self) -> (copy: Component)
        ensures
            copy@ == self@,
    {
        match self {
            Component::Prefix(name) => Component::Prefix(copy_bytes(name)),
            Component::RootDir => Component::RootDir,
            Component::CurDir => Component::CurDir,
            Component::ParentDir => Component::ParentDir,
            Component::Normal(name) => Component::Normal(copy_bytes(name)),
        }
    }
}

fn same_bytes(a: &Vec<u8>, b: &Vec<u8>) -> (same: bool)
    ensures
        same == (a@ == b@),
{
    if a.len() != b.len() {
        return false;
    }
    let mut i: usize = 0;
    while i < a.len()
        invariant
            i <= a.len(),
            a.len() == b.len(),
            forall|j: int| 0 <= j < i ==> a@[j] == b@[j],
        decreases a.len() - i,
    {
        if a[i] != b[i] {
            return false;
        }
        i = i + 1;
    }
    assert(a@ =~= b@);
    true
}

fn same_component(a: &Component, b: &Component) -> (same: bool)
    ensures
        same == (a@ == b@),
{
    match (a, b) {
        (Component::Prefix(x), Component::Prefix(y)) => same_bytes(x, y),
        (Component::RootDir, Component::RootDir) => true,
        (Component::CurDir, Component::CurDir) => true,
        (Component::ParentDir, Component::ParentDir) => true,
        (Component::Normal(x), Component::Normal(y)) => same_bytes(x, y),
        _ => false,
    }
}

/// Whether `path` starts with all of `root`, component by component.
fn starts_with(path: &Vec<Component>, root: &Vec<Component>) -> (inside: bool)
    ensures
        inside == parts(root@).is_prefix_of(parts(path@)),
{
    if root.len() > path.len() {
        return false;
    }
    let mut i: usize = 0;
    while i < root.len()
        invariant
            i <= root.len() <= path.len(),
            forall|j: int| 0 <= j < i ==> parts(root@)[j] == #[trigger] parts(path@)[j],
        decreases root.len() - i,
    {
        if !same_component(&root[i], &path[i]) {
            assert(parts(root@)[i as int] != parts(path@)[i as int]);
            assert(!parts(root@).is_prefix_of(parts(path@))) by {
                if parts(root@).is_prefix_of(parts(path@)) {
                    assert(parts(root@)[i as int] == parts(path@)[i as int]);
                }
            }
            return false;
        }
        i = i + 1;
    }
    assert(parts(root@) =~= parts(path@).take(root@.len() as int));
    true
}

// ---------------------------------------------------------------------------
// Collapsing `.` and `..`
// ---------------------------------------------------------------------------

/// The parent of a collapsed path. The root is its own parent. Above a relative path that does
/// not say where it is, `..` is all there is to say.
pub open spec fn up(path: Seq<Part>) -> Seq<Part> {
    if path.len() == 0 || path.last() is ParentDir {
        path.push(Part::ParentDir)
    } else if path.last() is Normal {
        path.drop_last()
    } else {
        path
    }
}

/// The path with `.` and `..` collapsed, as far as the text tells.
pub open spec fn collapsed(path: Seq<Part>) -> Seq<Part>
    decreases path.len(),
{
    if path.len() == 0 {
        path
    } else {
        match path.last() {
            Part::CurDir => collapsed(path.drop_last()),
            Part::ParentDir => up(collapsed(path.drop_last())),
            other => collapsed(path.drop_last()).push(other),
        }
    }
}

/// Whether the path says by itself where it is.
pub open spec fn is_anchored(path: Seq<Part>) -> bool {
    path.len() > 0 && (path[0] is RootDir || path[0] is Prefix)
}

/// The path collapsed, and placed in the current directory where it does not say by itself
/// where it is.
pub open spec fn normalized(path: Seq<Part>, cwd: Option<Seq<Part>>) -> Seq<Part> {
    if is_anchored(path) {
        collapsed(path)
    } else {
        match cwd {
            Some(start) => collapsed(start + path),
            None => if collapsed(path).len() == 0 {
                seq![Part::CurDir]
            } else {
                collapsed(path)
            },
        }
    }
}

/// Appends `path` to `out`, which is collapsed, and collapses what is appended.
fn append_collapsed(
    out: &mut Vec<Component>,
    path: &Vec<Component>,
    start: usize,
    Ghost(before): Ghost<Seq<Part>>,
)
    requires
        start <= path@.len(),
        parts(old(out)@) == collapsed(before),
    ensures
        parts(final(out)@) == collapsed(before + parts(path@).skip(start as int)),
{
    let ghost all = parts(path@);
    let mut i: usize = start;
    assert(before + all.subrange(start as int, start as int) =~= before);
    while i < path.len()
        invariant
            start <= i <= path.len(),
            all == parts(path@),
            parts(out@) == collapsed(before + all.subrange(start as int, i as int)),
        decreases path.len() - i,
    {
        let ghost done = before + all.subrange(start as int, i as int);
        let ghost next = before + all.subrange(start as int, i + 1);
        let ghost held = out@;
        proof {
            assert(next.drop_last() =~= done);
            assert(next.last() == path@[i as int]@);
        }
        match &path[i] {
            Component::CurDir => {},
            Component::ParentDir => {
                let length: usize = out.len();
                let climbs = if length == 0 {
                    true
                } else {
                    matches!(out[length - 1], Component::ParentDir)
                };
                let named = if length == 0 {
                    false
                } else {
                    matches!(out[length - 1], Component::Normal(_))
                };
                if climbs {
                    out.push(Component::ParentDir);
                    assert(parts(out@) =~= parts(held).push(Part::ParentDir));
                } else if named {
                    let _ = out.pop();
                    assert(parts(out@) =~= parts(held).drop_last());
                }
                assert(parts(out@) =~= up(parts(held)));
            },
            other => {
                let copy = other.clone();
                out.push(copy);
                assert(parts(out@) =~= parts(held).push(copy@));
            },
        }
        i = i + 1;
    }
    assert(all.subrange(start as int, i as int) =~= all.skip(start as int));
}

/// Collapses `path`, and places it in the current directory where it does not say by itself
/// where it is.
pub fn normalize_lexically(path: &Vec<Component>, cwd: &Option<Vec<Component>>) -> (out: Vec<
    Component,
>)
    ensures
        parts(out@) == normalized(parts(path@), parts_option(*cwd)),
{
    let mut out: Vec<Component> = Vec::new();
    let ghost mut before = Seq::<Part>::empty();
    let anchored = anchored(path);
    assert(parts(out@) =~= Seq::<Part>::empty());
    if !anchored {
        match cwd {
            Some(start) => {
                append_collapsed(&mut out, start, 0, Ghost(before));
                proof {
                    assert(before + parts(start@).skip(0) =~= parts(start@));
                    before = parts(start@);
                }
            },
            None => {},
        }
    }
    append_collapsed(&mut out, path, 0, Ghost(before));
    proof {
        assert(parts(path@).skip(0) =~= parts(path@));
        assert(Seq::<Part>::empty() + parts(path@) =~= parts(path@));
    }
    if out.len() == 0 && !anchored && cwd.is_none() {
        out.push(Component::CurDir);
        assert(parts(out@) =~= seq![Part::CurDir]);
    }
    out
}

// ---------------------------------------------------------------------------
// Resolving
// ---------------------------------------------------------------------------

/// What the filesystem says of a path.
#[derive(Debug)]
pub enum Answer {
    /// It exists, and this is where it really is.
    There(Vec<Component>),
    /// It is a link that leads to nothing that exists, and this is what it says.
    Link(Vec<Component>),
    /// There is nothing.
    Missing,
}

/// What an [`Answer`] says.
pub enum Found {
    There(Seq<Part>),
    Link(Seq<Part>),
    Missing,
}

impl View for Answer {
    type V = Found;

    open spec fn view(&self) -> Found {
        match *self {
            Answer::There(path) => Found::There(parts(path@)),
            Answer::Link(path) => Found::Link(parts(path@)),
            Answer::Missing => Found::Missing,
        }
    }
}

/// How many links that lead to nothing are followed for one path: more than any system follows
/// before it gives up.
pub const MAX_LINKS: usize = 64;

/// Whether there is a `..` in the path.
pub open spec fn climbs(path: Seq<Part>) -> bool {
    exists|i: int| 0 <= i < path.len() && (#[trigger] path[i]) is ParentDir
}

/// How many `..` there are in the path.
pub open spec fn ups(path: Seq<Part>) -> nat
    decreases path.len(),
{
    if path.len() == 0 {
        0
    } else if path.last() is ParentDir {
        ups(path.drop_last()) + 1
    } else {
        ups(path.drop_last())
    }
}

/// The path without its `.`.
pub open spec fn undotted(path: Seq<Part>) -> Seq<Part>
    decreases path.len(),
{
    if path.len() == 0 {
        path
    } else if path.last() is CurDir {
        undotted(path.drop_last())
    } else {
        undotted(path.drop_last()).push(path.last())
    }
}

/// The path to resolve: as given, or in the current directory where it does not say by itself
/// where it is.
pub open spec fn start_of(path: Seq<Part>, cwd: Option<Seq<Part>>) -> Seq<Part> {
    match cwd {
        Some(start) => if is_anchored(path) {
            undotted(path)
        } else {
            undotted(start) + undotted(path)
        },
        None => undotted(path),
    }
}

/// How many components at the start of the path say by themselves where it is: a root, a drive,
/// or a drive and its root.
pub open spec fn head_len(path: Seq<Part>) -> int {
    if !is_anchored(path) {
        0
    } else if path[0] is Prefix && path.len() > 1 && path[1] is RootDir {
        2
    } else {
        1
    }
}

/// Whether the path has a parent to ask for: it is neither empty nor a root.
pub open spec fn has_parent(path: Seq<Part>) -> bool {
    path.len() > head_len(path)
}

/// The path with the link at the end of its first `at` components replaced by what it says.
pub open spec fn followed(path: Seq<Part>, at: int, target: Seq<Part>) -> Seq<Part> {
    let start = if is_anchored(target) || at == 0 {
        Seq::empty()
    } else {
        path.take(at - 1)
    };
    start + undotted(target) + path.skip(at)
}

/// How far the resolution of a path has come: the filesystem is to be asked for the first `at`
/// components of `path`.
pub struct Way {
    pub path: Seq<Part>,
    pub at: int,
    /// How many links may still be followed.
    pub links: nat,
    /// Whether links are followed at all.
    pub follows: bool,
    /// The path before any link was followed.
    pub origin: Seq<Part>,
}

/// The way of a path, with nothing asked yet.
pub open spec fn way_from(path: Seq<Part>) -> Way {
    Way { path, at: path.len() as int, links: MAX_LINKS as nat, follows: true, origin: path }
}

/// The way of a path whose links lead nowhere: they count as missing.
pub open spec fn way_without_links(origin: Seq<Part>) -> Way {
    Way { path: origin, at: origin.len() as int, links: 0, follows: false, origin }
}

/// The way with another path to ask for. One that follows no links starts anew with it.
pub open spec fn turned_to(way: Way, path: Seq<Part>) -> Way {
    if way.follows {
        Way { path, at: path.len() as int, ..way }
    } else {
        way_from(path)
    }
}

/// Whether collapsing has left fewer `..` than there were.
pub open spec fn has_fewer_ups(way: Way, path: Seq<Part>) -> bool {
    ups(path) < ups(if way.follows { way.path } else { way.origin })
}

/// What to do after an answer.
pub enum Step {
    /// This is where the path leads.
    Done(Seq<Part>),
    /// Go on this way.
    Ask(Way),
}

/// What to do where nothing is: the parent is next. Where there is none, the text decides.
pub open spec fn step_up(way: Way) -> Step {
    let whole = collapsed(way.path);
    if has_parent(way.path.take(way.at)) {
        Step::Ask(Way { at: way.at - 1, ..way })
    } else if has_fewer_ups(way, whole) {
        Step::Ask(turned_to(way, whole))
    } else {
        Step::Done(normalized(way.path, None))
    }
}

/// What to do when the filesystem has said `found` of the first components, and that nothing is
/// there of any more of them.
///
/// What exists is where the filesystem has it, with the rest of the path after it. A `..` in
/// that rest may lead back to what exists, so the path is collapsed and asked for again. A link
/// is followed. Where there is no end of links, the path leads nowhere, and is taken once more
/// from its start, with links for missing.
pub open spec fn step(way: Way, found: Found) -> Step {
    match found {
        Found::There(base) => {
            let rest = way.path.skip(way.at);
            let whole = collapsed(base + rest);
            if way.at == way.path.len() {
                Step::Done(base)
            } else if climbs(rest) && has_fewer_ups(way, whole) {
                Step::Ask(turned_to(way, whole))
            } else {
                Step::Done(whole)
            }
        },
        Found::Link(target) => {
            let next = followed(way.path, way.at, target);
            if !way.follows {
                step_up(way)
            } else if way.links == 0 {
                Step::Ask(way_without_links(way.origin))
            } else {
                Step::Ask(
                    Way {
                        path: next,
                        at: next.len() as int,
                        links: (way.links - 1) as nat,
                        ..way
                    },
                )
            }
        },
        Found::Missing => step_up(way),
    }
}

/// Where a path leads, when `disk` says what the filesystem has.
pub open spec fn resolved(way: Way, disk: spec_fn(Seq<Part>) -> Found) -> Seq<Part>
    decreases
            ups(way.origin),
            (if way.follows {
                1int
            } else {
                0int
            }),
            way.links,
            ups(way.path),
            way.at,
    when 0 <= way.at <= way.path.len()
{
    match step(way, disk(way.path.take(way.at))) {
        Step::Done(place) => place,
        Step::Ask(next) => resolved(next, disk),
    }
}

/// Whether the links on the way are followed to an end.
pub open spec fn ends(way: Way, disk: spec_fn(Seq<Part>) -> Found) -> bool
    decreases
            ups(way.origin),
            (if way.follows {
                1int
            } else {
                0int
            }),
            way.links,
            ups(way.path),
            way.at,
    when 0 <= way.at <= way.path.len()
{
    way.follows && match step(way, disk(way.path.take(way.at))) {
        Step::Done(_) => true,
        Step::Ask(next) => ends(next, disk),
    }
}

/// Where a path leads on a filesystem, from the current directory.
pub open spec fn resolved_on(
    path: Seq<Part>,
    disk: spec_fn(Seq<Part>) -> Found,
    cwd: Option<Seq<Part>>,
) -> Seq<Part> {
    resolved(way_from(start_of(path, cwd)), disk)
}

/// Appends copies of `path[start..end]` to `out`.
fn append_range(out: &mut Vec<Component>, path: &Vec<Component>, start: usize, end: usize)
    requires
        start <= end <= path@.len(),
    ensures
        parts(final(out)@) == parts(old(out)@) + parts(path@).subrange(start as int, end as int),
{
    let ghost first = parts(out@);
    let ghost all = parts(path@);
    let mut i: usize = start;
    assert(parts(out@) =~= first + all.subrange(start as int, start as int));
    while i < end
        invariant
            start <= i <= end <= path.len(),
            all == parts(path@),
            parts(out@) == first + all.subrange(start as int, i as int),
        decreases end - i,
    {
        let ghost before = out@;
        let component = path[i].clone();
        out.push(component);
        proof {
            assert(parts(out@) =~= parts(before).push(component@));
            assert(first + all.subrange(start as int, i + 1) =~= (first + all.subrange(
                start as int,
                i as int,
            )).push(all[i as int]));
        }
        i = i + 1;
    }
}

/// Appends copies of the components of `path` to `out`, without its `.`.
fn append_undotted(out: &mut Vec<Component>, path: &Vec<Component>)
    ensures
        parts(final(out)@) == parts(old(out)@) + undotted(parts(path@)),
{
    let ghost first = parts(out@);
    let ghost all = parts(path@);
    let mut i: usize = 0;
    proof {
        assert(all.take(0) =~= Seq::<Part>::empty());
        assert(parts(out@) =~= first + undotted(all.take(0)));
    }
    while i < path.len()
        invariant
            i <= path.len(),
            all == parts(path@),
            parts(out@) == first + undotted(all.take(i as int)),
        decreases path.len() - i,
    {
        let ghost before = out@;
        proof {
            assert(all.take(i + 1).drop_last() =~= all.take(i as int));
            assert(all.take(i + 1).last() == path@[i as int]@);
        }
        match &path[i] {
            Component::CurDir => {},
            other => {
                let component = other.clone();
                out.push(component);
                proof {
                    assert(parts(out@) =~= parts(before).push(component@));
                    assert(parts(out@) =~= first + undotted(all.take(i + 1)));
                }
            },
        }
        i = i + 1;
    }
    assert(all.take(i as int) =~= all);
}

/// Whether the path says by itself where it is.
fn anchored(path: &Vec<Component>) -> (says: bool)
    ensures
        says == is_anchored(parts(path@)),
{
    if path.len() == 0 {
        false
    } else {
        matches!(path[0], Component::RootDir | Component::Prefix(_))
    }
}

/// Whether there is a `..` in the path from `start` on.
fn climbs_from(path: &Vec<Component>, start: usize) -> (found: bool)
    requires
        start <= path@.len(),
    ensures
        found == climbs(parts(path@).skip(start as int)),
{
    let ghost rest = parts(path@).skip(start as int);
    let mut i: usize = start;
    while i < path.len()
        invariant
            start <= i <= path.len(),
            rest == parts(path@).skip(start as int),
            forall|j: int| 0 <= j < i - start ==> !((#[trigger] rest[j]) is ParentDir),
        decreases path.len() - i,
    {
        if matches!(path[i], Component::ParentDir) {
            assert(rest[i - start] is ParentDir);
            return true;
        }
        assert(!(rest[i - start] is ParentDir));
        i = i + 1;
    }
    false
}

/// Counts the `..` in the path.
fn count_ups(path: &Vec<Component>) -> (count: usize)
    ensures
        count == ups(parts(path@)),
        count <= path@.len(),
{
    let ghost all = parts(path@);
    let mut count: usize = 0;
    let mut i: usize = 0;
    assert(all.take(0) =~= Seq::<Part>::empty());
    while i < path.len()
        invariant
            count <= i <= path.len(),
            all == parts(path@),
            count == ups(all.take(i as int)),
        decreases path.len() - i,
    {
        proof {
            assert(all.take(i + 1).drop_last() =~= all.take(i as int));
            assert(all.take(i + 1).last() == path@[i as int]@);
        }
        if matches!(path[i], Component::ParentDir) {
            count = count + 1;
        }
        i = i + 1;
    }
    assert(all.take(i as int) =~= all);
    count
}

/// Copies a path.
fn copy_path(path: &Vec<Component>) -> (copy: Vec<Component>)
    ensures
        parts(copy@) == parts(path@),
{
    let mut copy: Vec<Component> = Vec::new();
    append_range(&mut copy, path, 0, path.len());
    assert(parts(copy@) =~= parts(path@));
    copy
}

/// Collapses `base` with the components of `path` from `start` on after it.
fn collapse_onto(base: &Vec<Component>, path: &Vec<Component>, start: usize) -> (out: Vec<
    Component,
>)
    requires
        start <= path@.len(),
    ensures
        parts(out@) == collapsed(parts(base@) + parts(path@).skip(start as int)),
{
    let mut out: Vec<Component> = Vec::new();
    assert(parts(out@) =~= Seq::<Part>::empty());
    append_collapsed(&mut out, base, 0, Ghost(Seq::<Part>::empty()));
    assert(Seq::<Part>::empty() + parts(base@).skip(0) =~= parts(base@));
    append_collapsed(&mut out, path, start, Ghost(parts(base@)));
    out
}

/// Collapses `path`.
fn collapse(path: &Vec<Component>) -> (out: Vec<Component>)
    ensures
        parts(out@) == collapsed(parts(path@)),
{
    let empty: Vec<Component> = Vec::new();
    let out = collapse_onto(&empty, path, 0);
    assert(parts(empty@) + parts(path@).skip(0) =~= parts(path@));
    out
}

/// Resolves a path: asks for all of it, then for its ancestors from the nearest on.
pub struct Resolver {
    path: Vec<Component>,
    at: usize,
    links: usize,
    follows: bool,
    origin: Vec<Component>,
}

impl Resolver {
    /// How far it has come.
    pub closed spec fn way(&self) -> Way {
        Way {
            path: parts(self.path@),
            at: self.at as int,
            links: self.links as nat,
            follows: self.follows,
            origin: parts(self.origin@),
        }
    }

    /// The components to ask for are there.
    pub open spec fn wf(&self) -> bool {
        0 <= self.way().at <= self.way().path.len()
    }

    /// Starts with the whole path, in the current directory where it does not say by itself
    /// where it is.
    pub fn new(path: &Vec<Component>, cwd: &Option<Vec<Component>>) -> (resolver: Resolver)
        ensures
            resolver.wf(),
            resolver.way() == way_from(start_of(parts(path@), parts_option(*cwd))),
    {
        let mut start: Vec<Component> = Vec::new();
        assert(parts(start@) =~= Seq::<Part>::empty());
        if !anchored(path) {
            match cwd {
                Some(directory) => {
                    append_undotted(&mut start, directory);
                    assert(parts(start@) =~= undotted(parts(directory@)));
                },
                None => {},
            }
        }
        append_undotted(&mut start, path);
        assert(parts(start@) =~= start_of(parts(path@), parts_option(*cwd)));
        Resolver::start(start)
    }

    /// Starts with `path`.
    fn start(path: Vec<Component>) -> (resolver: Resolver)
        ensures
            resolver.wf(),
            resolver.way() == way_from(parts(path@)),
    {
        let at: usize = path.len();
        let origin = copy_path(&path);
        Resolver { path, at, links: MAX_LINKS, follows: true, origin }
    }

    /// The path to ask the filesystem for.
    pub fn candidate(&self) -> (candidate: Vec<Component>)
        requires
            self.wf(),
        ensures
            parts(candidate@) == self.way().path.take(self.way().at),
    {
        let mut candidate: Vec<Component> = Vec::new();
        append_range(&mut candidate, &self.path, 0, self.at);
        assert(parts(candidate@) =~= self.way().path.take(self.way().at));
        candidate
    }

    /// Takes in what the filesystem says of the candidate. Returns where the path leads once
    /// that is known, and otherwise has another candidate.
    pub fn advance(&mut self, answer: Answer) -> (done: Option<Vec<Component>>)
        requires
            old(self).wf(),
        ensures
            final(self).wf(),
            match step(old(self).way(), answer@) {
                Step::Done(place) => done matches Some(path) && parts(path@) == place,
                Step::Ask(next) => done is None && final(self).way() == next,
            },
    {
        match answer {
            Answer::There(base) => {
                if self.at == self.path.len() {
                    return Some(base);
                }
                let climbing = climbs_from(&self.path, self.at);
                let whole = collapse_onto(&base, &self.path, self.at);
                if climbing && self.fewer_ups(&whole) {
                    self.turn(whole);
                    None
                } else {
                    Some(whole)
                }
            },
            Answer::Link(target) => {
                if !self.follows {
                    return self.go_up();
                }
                if self.links == 0 {
                    self.path = copy_path(&self.origin);
                    self.at = self.path.len();
                    self.follows = false;
                    return None;
                }
                let mut next: Vec<Component> = Vec::new();
                assert(parts(next@) =~= Seq::<Part>::empty());
                if !anchored(&target) && self.at > 0 {
                    append_range(&mut next, &self.path, 0, self.at - 1);
                }
                append_undotted(&mut next, &target);
                append_range(&mut next, &self.path, self.at, self.path.len());
                assert(parts(next@) =~= followed(
                    self.way().path,
                    self.way().at,
                    parts(target@),
                ));
                self.at = next.len();
                self.path = next;
                self.links = self.links - 1;
                None
            },
            Answer::Missing => self.go_up(),
        }
    }

    /// Goes on with the parent, where there is one.
    fn go_up(&mut self) -> (done: Option<Vec<Component>>)
        requires
            old(self).wf(),
        ensures
            final(self).wf(),
            match step_up(old(self).way()) {
                Step::Done(place) => done matches Some(path) && parts(path@) == place,
                Step::Ask(next) => done is None && final(self).way() == next,
            },
    {
        let head: usize = if self.at == 0 || !anchored(&self.path) {
            0
        } else if self.at > 1 && matches!(self.path[0], Component::Prefix(_)) && matches!(
            self.path[1],
            Component::RootDir
        ) {
            2
        } else {
            1
        };
        assert(head == head_len(self.way().path.take(self.way().at)));
        if self.at > head {
            self.at = self.at - 1;
            return None;
        }
        let whole = collapse(&self.path);
        if self.fewer_ups(&whole) {
            self.turn(whole);
            None
        } else {
            Some(normalize_lexically(&self.path, &None))
        }
    }

    /// Whether collapsing has left fewer `..` than there were.
    fn fewer_ups(&self, whole: &Vec<Component>) -> (fewer: bool)
        ensures
            fewer == has_fewer_ups(self.way(), parts(whole@)),
    {
        if self.follows {
            count_ups(whole) < count_ups(&self.path)
        } else {
            count_ups(whole) < count_ups(&self.origin)
        }
    }

    /// Goes on with another path.
    fn turn(&mut self, path: Vec<Component>)
        ensures
            final(self).wf(),
            final(self).way() == turned_to(old(self).way(), parts(path@)),
    {
        if self.follows {
            self.at = path.len();
            self.path = path;
        } else {
            *self = Resolver::start(path);
        }
    }
}

// ---------------------------------------------------------------------------
// The sandbox
// ---------------------------------------------------------------------------

/// Why a tool failed.
#[derive(Debug)]
pub enum ToolError {
    Failed(String),
}

/// The error for a path that is not allowed. It says nothing of what is.
pub open spec fn outside_text(path: Seq<char>) -> Seq<char> {
    "path '"@ + path + "' is outside the allowed directories"@
}

/// The roots that a tool is allowed. With none, everything is.
#[derive(Debug)]
pub struct PathSandbox {
    roots: Vec<Vec<Component>>,
}

impl View for PathSandbox {
    type V = Seq<Seq<Part>>;

    closed spec fn view(&self) -> Seq<Seq<Part>> {
        self.roots@.map_values(|root: Vec<Component>| parts(root@))
    }
}

/// Whether the roots allow a place: there are none, or it lies in one of them.
pub open spec fn allows(roots: Seq<Seq<Part>>, place: Seq<Part>) -> bool {
    roots.len() == 0 || exists|i: int|
        0 <= i < roots.len() && #[trigger] roots[i].is_prefix_of(place)
}

impl Default for PathSandbox {
    /// A sandbox without roots.
    fn default() -> (sandbox: PathSandbox)
        ensures
            sandbox@.len() == 0,
    {
        PathSandbox { roots: Vec::new() }
    }
}

impl Clone for PathSandbox {
    fn clone(&self) -> (copy: PathSandbox)
        ensures
            copy@ == self@,
    {
        let mut copy = PathSandbox { roots: Vec::new() };
        let mut i: usize = 0;
        assert(copy@ =~= self@.take(0));
        while i < self.roots.len()
            invariant
                i <= self.roots.len(),
                copy@ == self@.take(i as int),
            decreases self.roots.len() - i,
        {
            let ghost before = copy@;
            let root = copy_path(&self.roots[i]);
            copy.roots.push(root);
            proof {
                assert(copy@ =~= before.push(parts(root@)));
                assert(self@.take(i + 1) =~= self@.take(i as int).push(self@[i as int]));
            }
            i = i + 1;
        }
        assert(self@.take(i as int) =~= self@);
        copy
    }
}

impl PathSandbox {
    /// A sandbox with the given roots, each where it was resolved to. A root that does not exist
    /// is where it would be created, so that a workspace created later still matches.
    pub fn new(roots: Vec<Vec<Component>>) -> (sandbox: PathSandbox)
        ensures
            sandbox@ == roots@.map_values(|root: Vec<Component>| parts(root@)),
    {
        PathSandbox { roots }
    }

    /// Whether there is no restriction.
    pub fn is_unrestricted(&self) -> (unrestricted: bool)
        ensures
            unrestricted == (self@.len() == 0),
    {
        self.roots.len() == 0
    }

    /// Allows the path `path`, which was resolved to `place`, if it lies in one of the roots.
    pub fn check(&self, path: &str, place: Vec<Component>) -> (allowed: Result<
        Vec<Component>,
        ToolError,
    >)
        ensures
            allowed is Ok == allows(self@, parts(place@)),
            allowed matches Ok(inside) ==> inside == place,
            allowed matches Err(ToolError::Failed(text)) ==> text@ == outside_text(path@),
    {
        if self.is_unrestricted() {
            return Ok(place);
        }
        let mut i: usize = 0;
        while i < self.roots.len()
            invariant
                i <= self.roots.len(),
                forall|j: int| 0 <= j < i ==> !#[trigger] self@[j].is_prefix_of(parts(place@)),
            decreases self.roots.len() - i,
        {
            if starts_with(&place, &self.roots[i]) {
                assert(self@[i as int].is_prefix_of(parts(place@)));
                return Ok(place);
            }
            i = i + 1;
        }
        let mut text = "path '".to_owned();
        text.append(path);
        text.append("' is outside the allowed directories");
        Err(ToolError::Failed(text))
    }
}

} // verus!
