//! What the sandbox promises, on any filesystem.
use crate::tools::sandbox::{
    allows, climbs, collapsed, ends, followed, has_fewer_ups, has_parent, head_len, is_anchored,
    normalized, resolved, resolved_on, start_of, step, turned_to, undotted, up, ups, way_from,
    way_without_links, Found, Part, Resolver, Step, Way, MAX_LINKS,
};
use vstd::prelude::*;

verus! {

// ---------------------------------------------------------------------------
// Kinds of paths
// ---------------------------------------------------------------------------

/// There is no `.` and no `..` in the path.
pub open spec fn is_plain(path: Seq<Part>) -> bool {
    forall|i: int|
        0 <= i < path.len() ==> !((#[trigger] path[i]) is CurDir) && !(path[i] is ParentDir)
}

/// The path is made of names and `..` alone.
pub open spec fn is_steps(path: Seq<Part>) -> bool {
    forall|i: int|
        0 <= i < path.len() ==> (#[trigger] path[i]) is Normal || path[i] is ParentDir
}

/// The path says where it starts, by a root, a drive or both, and goes on by names and `..`
/// alone.
pub open spec fn is_way(path: Seq<Part>) -> bool {
    is_anchored(path) && is_steps(path.skip(head_len(path)))
}

/// The path says where it starts, and goes on by names alone.
pub open spec fn is_real(path: Seq<Part>) -> bool {
    is_way(path) && is_plain(path)
}

/// The path has a root or a drive only at its start.
pub open spec fn is_tidy(path: Seq<Part>) -> bool {
    forall|i: int|
        head_len(path) <= i < path.len() ==> !((#[trigger] path[i]) is Prefix) && !(
        path[i] is RootDir)
}

// ---------------------------------------------------------------------------
// Filesystems
// ---------------------------------------------------------------------------

/// What holds of a filesystem that stays as it is while it is asked: what exists really is at a
/// path of names; each part of a real path is where it says; what is asked for below something
/// that exists is asked for below its real path; below nothing there is nothing; and a link is
/// no root, and says a path.
pub open spec fn is_filesystem(disk: spec_fn(Seq<Part>) -> Found) -> bool {
    &&& forall|p: Seq<Part>| (#[trigger] disk(p)) is There ==> is_real(disk(p)->There_0)
    &&& forall|p: Seq<Part>, n: int|
        disk(p) is There && head_len(disk(p)->There_0) <= n <= disk(p)->There_0.len()
            ==> #[trigger] disk(disk(p)->There_0.take(n)) == Found::There(
            disk(p)->There_0.take(n),
        )
    &&& forall|p: Seq<Part>, r: Seq<Part>|
        disk(p) is There && is_steps(r) ==> #[trigger] disk(p + r) == disk(disk(p)->There_0 + r)
    &&& forall|p: Seq<Part>, r: Seq<Part>|
        p.len() > 0 && disk(p) is Missing && is_steps(r) ==> (#[trigger] disk(p + r)) is Missing
    &&& forall|p: Seq<Part>|
        (#[trigger] disk(p)) is Link ==> has_parent(p) && is_tidy(disk(p)->Link_0)
}

/// Each part of the path is real as far as it exists: the filesystem has it under this very
/// path, or has nothing there, not even a link.
pub open spec fn is_where_it_says(disk: spec_fn(Seq<Part>) -> Found, path: Seq<Part>) -> bool {
    forall|n: int|
        head_len(path) <= n <= path.len() ==> disk(#[trigger] path.take(n)) == Found::There(
            path.take(n),
        ) || disk(path.take(n)) is Missing
}

// ---------------------------------------------------------------------------
// Paths
// ---------------------------------------------------------------------------

/// Collapsing leaves a path without `.` and `..` as it is, so collapsing twice is collapsing
/// once.
pub proof fn law_plain_path_stays(path: Seq<Part>)
    requires
        is_plain(path),
    ensures
        collapsed(path) == path,
    decreases path.len(),
{
    if path.len() > 0 {
        let rest = path.drop_last();
        assert forall|i: int| 0 <= i < rest.len() implies !((#[trigger] rest[i]) is CurDir) && !(
        rest[i] is ParentDir) by {
            assert(rest[i] == path[i]);
        }
        law_plain_path_stays(rest);
        let last = path[path.len() - 1];
        assert(!(last is CurDir) && !(last is ParentDir));
        assert(rest.push(last) =~= path);
    }
}

/// There are some `..` in a path where there is one.
proof fn lemma_ups(path: Seq<Part>)
    ensures
        climbs(path) == (ups(path) > 0),
    decreases path.len(),
{
    if path.len() > 0 {
        let rest = path.drop_last();
        lemma_ups(rest);
        if climbs(rest) {
            let i = choose|i: int| 0 <= i < rest.len() && (#[trigger] rest[i]) is ParentDir;
            assert(path[i] is ParentDir);
        }
        if path.last() is ParentDir {
            assert(path[path.len() - 1] is ParentDir);
        } else if climbs(path) {
            let i = choose|i: int| 0 <= i < path.len() && (#[trigger] path[i]) is ParentDir;
            assert(rest[i] is ParentDir);
        }
    }
}

/// A plain path has no `..`.
proof fn lemma_plain_ups(path: Seq<Part>)
    requires
        is_plain(path),
    ensures
        ups(path) == 0,
{
    lemma_ups(path);
}

/// A `..` in the rest of a path is one in the path.
proof fn lemma_climbs_skip(path: Seq<Part>, at: int)
    requires
        0 <= at <= path.len(),
        climbs(path.skip(at)),
    ensures
        climbs(path),
        ups(path) > 0,
{
    let rest = path.skip(at);
    let i = choose|i: int| 0 <= i < rest.len() && (#[trigger] rest[i]) is ParentDir;
    assert(path[i + at] is ParentDir);
    lemma_ups(path);
}

/// Steps after a way are a way with the same start.
proof fn lemma_way_steps(way: Seq<Part>, steps: Seq<Part>)
    requires
        is_way(way),
        is_steps(steps),
    ensures
        is_way(way + steps),
        head_len(way + steps) == head_len(way),
        head_len(way) <= way.len(),
{
    let whole = way + steps;
    let h = head_len(way);
    if way.len() == 1 && steps.len() > 0 {
        assert(whole[1] == steps[0]);
    }
    assert forall|i: int| 0 <= i < whole.skip(h).len() implies (#[trigger] whole.skip(h)[i])
        is Normal || whole.skip(h)[i] is ParentDir by {
        if i + h < way.len() {
            assert(whole.skip(h)[i] == way.skip(h)[i]);
        } else {
            assert(whole.skip(h)[i] == steps[i + h - way.len()]);
        }
    }
}

/// The parts of a way.
proof fn lemma_way_parts(way: Seq<Part>, at: int)
    requires
        is_way(way),
        head_len(way) <= at <= way.len(),
    ensures
        is_way(way.take(at)),
        head_len(way.take(at)) == head_len(way),
        is_steps(way.skip(at)),
        way == way.take(at) + way.skip(at),
{
    let h = head_len(way);
    assert(way =~= way.take(at) + way.skip(at));
    let head = way.take(at);
    let tail = way.skip(at);
    assert forall|i: int| 0 <= i < head.skip(h).len() implies (#[trigger] head.skip(h)[i]) is Normal
        || head.skip(h)[i] is ParentDir by {
        assert(head.skip(h)[i] == way.skip(h)[i]);
    }
    assert forall|i: int| 0 <= i < tail.len() implies (#[trigger] tail[i]) is Normal || tail[i]
        is ParentDir by {
        assert(tail[i] == way.skip(h)[i + at - h]);
    }
    if at == 1 && h == 1 && way.len() > 1 && way[0] is Prefix {
        assert(!(way[1] is RootDir));
    }
}

/// A way collapses to a path of names with the same start.
proof fn lemma_collapsed_way(path: Seq<Part>)
    requires
        is_way(path),
    ensures
        is_real(collapsed(path)),
        head_len(collapsed(path)) == head_len(path),
        collapsed(path).len() >= head_len(path),
        collapsed(path).take(head_len(path)) == path.take(head_len(path)),
    decreases path.len(),
{
    let h = head_len(path);
    if path.len() == h {
        assert forall|i: int| 0 <= i < path.len() implies !((#[trigger] path[i]) is CurDir) && !(
        path[i] is ParentDir) by {}
        law_plain_path_stays(path);
    } else {
        let head = path.drop_last();
        lemma_way_parts(path, path.len() - 1);
        assert(head =~= path.take(path.len() - 1));
        lemma_collapsed_way(head);
        let before = collapsed(head);
        let after = collapsed(path);
        assert(path.skip(h)[path.len() - h - 1] == path.last());
        assert(head.take(h) =~= path.take(h));
        if path.last() is Normal {
            assert(after == before.push(path.last()));
            let one = seq![path.last()];
            assert(after =~= before + one);
            lemma_way_steps(before, one);
            assert(after.take(h) =~= before.take(h));
            assert forall|i: int| 0 <= i < after.len() implies !((#[trigger] after[i]) is CurDir)
                && !(after[i] is ParentDir) by {
                if i < before.len() {
                    assert(after[i] == before[i]);
                    assert(!(before[i] is CurDir) && !(before[i] is ParentDir));
                }
            }
        } else {
            assert(after == up(before));
            assert(!(before[before.len() - 1] is ParentDir));
            if before.last() is Normal {
                if before.len() == h {
                    assert(before.take(h) =~= before);
                    assert(before[before.len() - 1] == path.take(h)[h - 1]);
                }
                lemma_way_parts(before, before.len() - 1);
                assert(after =~= before.take(before.len() - 1));
                assert(after.take(h) =~= before.take(h));
                assert forall|i: int| 0 <= i < after.len() implies !((#[trigger] after[i])
                    is CurDir) && !(after[i] is ParentDir) by {
                    assert(after[i] == before[i]);
                    assert(!(before[i] is CurDir) && !(before[i] is ParentDir));
                }
            }
        }
    }
}

/// A path that says where it is collapses to one of names alone.
pub proof fn law_collapsed_path_is_real(path: Seq<Part>)
    requires
        is_way(path),
    ensures
        is_real(collapsed(path)),
{
    lemma_collapsed_way(path);
}

/// Leaving out every `.` keeps a path tidy, and keeps its start.
proof fn lemma_undotted(path: Seq<Part>)
    requires
        is_tidy(path),
    ensures
        is_anchored(path) ==> is_way(undotted(path)),
        !is_anchored(path) ==> is_steps(undotted(path)),
        head_len(undotted(path)) == head_len(path),
    decreases path.len(),
{
    if path.len() > 0 {
        let h = head_len(path);
        if path.len() == h {
            lemma_undotted_plain(path);
        } else {
            let head = path.drop_last();
            let last = path[path.len() - 1];
            assert(!(last is Prefix) && !(last is RootDir));
            assert(head_len(head) == h);
            assert forall|i: int| head_len(head) <= i < head.len() implies !((#[trigger] head[i])
                is Prefix) && !(head[i] is RootDir) by {
                assert(head[i] == path[i]);
            }
            lemma_undotted(head);
            if !(last is CurDir) {
                let one = seq![last];
                assert(undotted(path) =~= undotted(head) + one);
                if is_anchored(path) {
                    assert(head[0] == path[0]);
                    lemma_way_steps(undotted(head), one);
                } else {
                    let all = undotted(path);
                    if head.len() > 0 {
                        assert(head[0] == path[0]);
                    }
                    assert forall|i: int| 0 <= i < all.len() implies (#[trigger] all[i]) is Normal
                        || all[i] is ParentDir by {
                        if i < undotted(head).len() {
                            assert(all[i] == undotted(head)[i]);
                        }
                    }
                    if all.len() > 0 {
                        assert(all[0] is Normal || all[0] is ParentDir);
                    }
                }
            } else {
                if head.len() > 0 {
                    assert(head[0] == path[0]);
                }
            }
        }
    }
}

/// A path of names has no `.` to leave out.
proof fn lemma_undotted_plain(path: Seq<Part>)
    requires
        is_plain(path),
    ensures
        undotted(path) == path,
    decreases path.len(),
{
    if path.len() > 0 {
        let head = path.drop_last();
        assert forall|i: int| 0 <= i < head.len() implies !((#[trigger] head[i]) is CurDir) && !(
        head[i] is ParentDir) by {
            assert(head[i] == path[i]);
        }
        lemma_undotted_plain(head);
        assert(!(path[path.len() - 1] is CurDir));
        assert(head.push(path.last()) =~= path);
    }
}

/// A path starts a way, by itself or in the current directory.
proof fn lemma_start(path: Seq<Part>, cwd: Option<Seq<Part>>)
    requires
        is_tidy(path),
        is_anchored(path) || (cwd matches Some(start) && is_real(start)),
    ensures
        is_way(start_of(path, cwd)),
{
    lemma_undotted(path);
    if !is_anchored(path) {
        let start = cwd->0;
        lemma_undotted_plain(start);
        lemma_way_steps(start, undotted(path));
    }
}

// ---------------------------------------------------------------------------
// Places
// ---------------------------------------------------------------------------

/// Names after a real path, of which the first is not there, are where they say.
proof fn lemma_missing_names(
    disk: spec_fn(Seq<Part>) -> Found,
    known: Seq<Part>,
    base: Seq<Part>,
    names: Seq<Part>,
)
    requires
        is_filesystem(disk),
        known.len() > 0,
        disk(known) == Found::There(base),
        is_steps(names),
        names.len() > 0 ==> disk(known + names.take(1)) is Missing,
    ensures
        is_where_it_says(disk, base + names),
{
    let place = base + names;
    lemma_way_steps(base, names);
    assert forall|n: int| head_len(place) <= n <= place.len() implies disk(#[trigger] place.take(n))
        == Found::There(place.take(n)) || disk(place.take(n)) is Missing by {
        if n <= base.len() {
            assert(place.take(n) =~= base.take(n));
            assert(disk(disk(known)->There_0.take(n)) == Found::There(base.take(n)));
        } else {
            let k = n - base.len();
            let some = names.take(k);
            let one = names.take(1);
            let more = names.subrange(1, k);
            lemma_steps_parts(names, 0, k);
            lemma_steps_parts(names, 1, k);
            assert(names.subrange(0, k) =~= some);
            assert(some =~= one + more);
            assert(disk((known + one) + more) is Missing);
            assert((known + one) + more =~= known + some);
            assert(disk(known + some) == disk(disk(known)->There_0 + some));
            assert(place.take(n) =~= base + some);
        }
    }
}

/// A stretch of steps is made of steps.
proof fn lemma_steps_parts(steps: Seq<Part>, from: int, to: int)
    requires
        is_steps(steps),
        0 <= from <= to <= steps.len(),
    ensures
        is_steps(steps.subrange(from, to)),
{
    let some = steps.subrange(from, to);
    assert forall|i: int| 0 <= i < some.len() implies (#[trigger] some[i]) is Normal || some[i]
        is ParentDir by {
        assert(some[i] == steps[i + from]);
    }
}

/// Steps without `..` after a real path are a real path.
proof fn lemma_names_after(base: Seq<Part>, names: Seq<Part>)
    requires
        is_real(base),
        is_steps(names),
        !climbs(names),
    ensures
        is_real(base + names),
        collapsed(base + names) == base + names,
{
    let place = base + names;
    lemma_way_steps(base, names);
    assert forall|i: int| 0 <= i < place.len() implies !((#[trigger] place[i]) is CurDir) && !(
    place[i] is ParentDir) by {
        if i < base.len() {
            assert(!(base[i] is CurDir) && !(base[i] is ParentDir));
        } else {
            assert(place[i] == names[i - base.len()]);
            assert(!(names[i - base.len()] is ParentDir));
        }
    }
    law_plain_path_stays(place);
}

/// Where the start of a way is not there, nothing of it is.
proof fn lemma_nothing_there(disk: spec_fn(Seq<Part>) -> Found, path: Seq<Part>)
    requires
        is_filesystem(disk),
        is_way(path),
        disk(path.take(head_len(path))) is Missing,
    ensures
        is_where_it_says(disk, path),
{
    let h = head_len(path);
    assert forall|n: int| h <= n <= path.len() implies disk(#[trigger] path.take(n)) is Missing by {
        lemma_way_parts(path, h);
        let more = path.skip(h).subrange(0, n - h);
        lemma_steps_parts(path.skip(h), 0, n - h);
        assert(path.take(h) + more =~= path.take(n));
        assert(disk(path.take(h) + more) is Missing);
    }
}

/// The link at the end of the first `at` components of a way leads to a way.
proof fn lemma_followed(
    disk: spec_fn(Seq<Part>) -> Found,
    path: Seq<Part>,
    at: int,
    target: Seq<Part>,
)
    requires
        is_filesystem(disk),
        is_way(path),
        head_len(path) <= at <= path.len(),
        disk(path.take(at)) == Found::Link(target),
    ensures
        is_way(followed(path, at, target)),
        head_len(path) < at,
        is_anchored(target) ==> is_way(undotted(target)),
        !is_anchored(target) ==> is_steps(undotted(target)),
{
    lemma_way_parts(path, at);
    lemma_undotted(target);
    let rest = path.skip(at);
    assert(has_parent(path.take(at)));
    if is_anchored(target) {
        lemma_way_steps(undotted(target), rest);
        assert(followed(path, at, target) =~= undotted(target) + rest);
    } else {
        lemma_way_parts(path, at - 1);
        lemma_way_steps(path.take(at - 1), undotted(target));
        lemma_way_steps(path.take(at - 1) + undotted(target), rest);
    }
}

/// Where the links are followed to an end, a way leads to where it says.
#[verifier::rlimit(40)]
proof fn lemma_follow(way: Way, disk: spec_fn(Seq<Part>) -> Found)
    requires
        is_filesystem(disk),
        is_way(way.path),
        head_len(way.path) <= way.at <= way.path.len(),
        way.at < way.path.len() ==> disk(way.path.take(way.at + 1)) is Missing,
        ends(way, disk),
    ensures
        is_real(resolved(way, disk)),
        is_where_it_says(disk, resolved(way, disk)),
    decreases way.links, ups(way.path), way.at, 1int,
{
    let path = way.path;
    let at = way.at;
    lemma_way_parts(path, at);
    let known = path.take(at);
    let rest = path.skip(at);
    match disk(known) {
        Found::There(base) => {
            lemma_way_steps(base, rest);
            lemma_collapsed_way(base + rest);
            if climbs(rest) {
                let whole = collapsed(base + rest);
                lemma_plain_ups(whole);
                lemma_climbs_skip(path, at);
                lemma_follow(turned_to(way, whole), disk);
            } else {
                if at < path.len() {
                    assert(known + rest.take(1) =~= path.take(at + 1));
                } else {
                    assert(base + rest =~= base);
                }
                lemma_missing_names(disk, known, base, rest);
                lemma_names_after(base, rest);
            }
        },
        Found::Link(target) => {
            lemma_followed(disk, path, at, target);
            assert(!ends(way_without_links(way.origin), disk));
            let next = followed(path, at, target);
            lemma_follow(
                Way { path: next, at: next.len() as int, links: (way.links - 1) as nat, ..way },
                disk,
            );
        },
        Found::Missing => lemma_follow_up(way, disk),
    }
}

/// The same, where nothing is.
proof fn lemma_follow_up(way: Way, disk: spec_fn(Seq<Part>) -> Found)
    requires
        is_filesystem(disk),
        is_way(way.path),
        head_len(way.path) <= way.at <= way.path.len(),
        disk(way.path.take(way.at)) is Missing,
        ends(way, disk),
    ensures
        is_real(resolved(way, disk)),
        is_where_it_says(disk, resolved(way, disk)),
    decreases way.links, ups(way.path), way.at, 0int,
{
    let path = way.path;
    lemma_way_parts(path, way.at);
    if has_parent(path.take(way.at)) {
        lemma_follow(Way { at: way.at - 1, ..way }, disk);
    } else {
        let whole = collapsed(path);
        lemma_collapsed_way(path);
        lemma_plain_ups(whole);
        if has_fewer_ups(way, whole) {
            lemma_follow(turned_to(way, whole), disk);
        } else {
            lemma_ups(path);
            lemma_way_parts(path, head_len(path));
            assert(is_plain(path)) by {
                assert forall|i: int| 0 <= i < path.len() implies !((#[trigger] path[i]) is CurDir)
                    && !(path[i] is ParentDir) by {
                    if i >= head_len(path) {
                        assert(path[i] == path.skip(head_len(path))[i - head_len(path)]);
                    }
                }
            }
            law_plain_path_stays(path);
            lemma_nothing_there(disk, path);
        }
    }
}

// ---------------------------------------------------------------------------
// Links without an end
// ---------------------------------------------------------------------------

/// Where the links have no end, the path is taken once more from its start, with links for
/// missing.
proof fn lemma_runs_out(way: Way, disk: spec_fn(Seq<Part>) -> Found)
    requires
        0 <= way.at <= way.path.len(),
        way.follows,
        !ends(way, disk),
    ensures
        resolved(way, disk) == resolved(way_without_links(way.origin), disk),
    decreases way.links, ups(way.path), way.at,
{
    match step(way, disk(way.path.take(way.at))) {
        Step::Done(_) => {},
        Step::Ask(next) => {
            if next.follows {
                lemma_runs_out(next, disk);
            }
        },
    }
}

/// Whether the links have an end does not depend on where the way began.
proof fn lemma_origin_does_not_matter(
    way: Way,
    origin: Seq<Part>,
    disk: spec_fn(Seq<Part>) -> Found,
)
    requires
        0 <= way.at <= way.path.len(),
        way.follows,
    ensures
        ends(way, disk) == ends(Way { origin, ..way }, disk),
    decreases way.links, ups(way.path), way.at,
{
    let other = Way { origin, ..way };
    let found = disk(way.path.take(way.at));
    match step(way, found) {
        Step::Done(_) => {},
        Step::Ask(next) => {
            if next.follows {
                assert(step(other, found) == Step::Ask(Way { origin, ..next }));
                lemma_origin_does_not_matter(next, origin, disk);
            } else {
                assert(!ends(way_without_links(way.origin), disk));
                assert(!ends(way_without_links(origin), disk));
            }
        },
    }
}

/// The way that follows links, with `links` of them left.
spec fn following(path: Seq<Part>, at: int, links: nat, origin: Seq<Part>) -> Way {
    Way { path, at, links, follows: true, origin }
}

/// Whether the links have an end is the same for a path and for its real one.
#[verifier::rlimit(60)]
proof fn lemma_same_end(
    disk: spec_fn(Seq<Part>) -> Found,
    known: Seq<Part>,
    base: Seq<Part>,
    rest: Seq<Part>,
    k: int,
    links: nat,
    origin: Seq<Part>,
)
    requires
        is_filesystem(disk),
        is_way(known),
        disk(known) == Found::There(base),
        is_steps(rest),
        0 <= k <= rest.len(),
    ensures
        ends(following(known + rest, known.len() + k, links, origin), disk) == ends(
            following(base + rest, base.len() + k, links, origin),
            disk,
        ),
    decreases links, k,
{
    let p = known + rest;
    let b = base + rest;
    let some = rest.subrange(0, k);
    let more = rest.skip(k);
    let way_p = following(p, known.len() + k, links, origin);
    let way_b = following(b, base.len() + k, links, origin);
    lemma_steps_parts(rest, 0, k);
    lemma_steps_parts(rest, k, rest.len() as int);
    assert(rest.subrange(k, rest.len() as int) =~= more);
    lemma_way_steps(known, rest);
    lemma_way_steps(base, rest);
    lemma_way_steps(known, some);
    lemma_way_steps(base, some);
    assert(p.take(known.len() + k) =~= known + some);
    assert(b.take(base.len() + k) =~= base + some);
    assert(p.skip(known.len() + k) =~= more);
    assert(b.skip(base.len() + k) =~= more);
    assert(disk(known + some) == disk(disk(known)->There_0 + some));
    let found = disk(known + some);
    if k == 0 {
        assert(known + some =~= known);
    }
    match found {
        Found::There(there) => {
            let whole = collapsed(there + more);
            lemma_way_steps(there, more);
            lemma_collapsed_way(there + more);
            lemma_plain_ups(whole);
            if climbs(more) {
                lemma_climbs_skip(p, known.len() + k);
                lemma_climbs_skip(b, base.len() + k);
                assert(turned_to(way_p, whole) == turned_to(way_b, whole));
            }
        },
        Found::Link(target) => {
            assert(!ends(way_without_links(origin), disk));
            if links > 0 {
                lemma_followed(disk, p, known.len() + k, target);
                lemma_followed(disk, b, base.len() + k, target);
                let left = (links - 1) as nat;
                let next_p = followed(p, known.len() + k, target);
                let next_b = followed(b, base.len() + k, target);
                if is_anchored(target) {
                    assert(next_p =~= undotted(target) + more);
                    assert(next_b =~= undotted(target) + more);
                } else {
                    let fewer = rest.subrange(0, k - 1);
                    let steps = fewer + undotted(target) + more;
                    lemma_steps_parts(rest, 0, k - 1);
                    assert forall|i: int| 0 <= i < steps.len() implies (#[trigger] steps[i])
                        is Normal || steps[i] is ParentDir by {
                        let one = fewer + undotted(target);
                        if i < fewer.len() {
                            assert(steps[i] == fewer[i]);
                        } else if i < one.len() {
                            assert(steps[i] == undotted(target)[i - fewer.len()]);
                        } else {
                            assert(steps[i] == more[i - one.len()]);
                        }
                    }
                    assert(next_p =~= known + steps);
                    assert(next_b =~= base + steps);
                    lemma_same_end(disk, known, base, steps, steps.len() as int, left, origin);
                }
            }
        },
        Found::Missing => {
            lemma_same_end(disk, known, base, rest, k - 1, links, origin);
        },
    }
}

/// Where a way leads is where it says, or cannot be reached.
proof fn lemma_place(path: Seq<Part>, disk: spec_fn(Seq<Part>) -> Found)
    requires
        is_filesystem(disk),
        is_way(path),
    ensures
        is_real(resolved(way_from(path), disk)),
        is_where_it_says(disk, resolved(way_from(path), disk)) || !ends(
            way_from(resolved(way_from(path), disk)),
            disk,
        ),
    decreases ups(path), path.len() + 1,
{
    lemma_way_parts(path, head_len(path));
    if ends(way_from(path), disk) {
        lemma_follow(way_from(path), disk);
    } else {
        lemma_runs_out(way_from(path), disk);
        lemma_without_links(path, path.len() as int, disk);
    }
}

/// The same, for a path whose links have no end, with the longer ones asked for already.
#[verifier::rlimit(40)]
proof fn lemma_without_links(path: Seq<Part>, at: int, disk: spec_fn(Seq<Part>) -> Found)
    requires
        is_filesystem(disk),
        is_way(path),
        head_len(path) <= at <= path.len(),
        !ends(way_from(path), disk),
    ensures
        ({
            let place = resolved(Way { at, ..way_without_links(path) }, disk);
            &&& is_real(place)
            &&& is_where_it_says(disk, place) || !ends(way_from(place), disk)
        }),
    decreases ups(path), at,
{
    let way = Way { at, ..way_without_links(path) };
    let known = path.take(at);
    let rest = path.skip(at);
    lemma_way_parts(path, at);
    match disk(known) {
        Found::There(base) => {
            lemma_way_steps(base, rest);
            lemma_collapsed_way(base + rest);
            if at == path.len() {
                assert(path.take(path.len() as int) =~= known);
                assert(ends(way_from(path), disk));
            } else if climbs(rest) {
                let whole = collapsed(base + rest);
                lemma_plain_ups(whole);
                lemma_climbs_skip(path, at);
                lemma_place(whole, disk);
            } else {
                let place = base + rest;
                let links = MAX_LINKS as nat;
                lemma_names_after(base, rest);
                lemma_same_end(disk, known, base, rest, rest.len() as int, links, path);
                lemma_origin_does_not_matter(way_from(place), path, disk);
            }
        },
        _ => {
            if has_parent(known) {
                lemma_without_links(path, at - 1, disk);
            } else {
                let whole = collapsed(path);
                lemma_collapsed_way(path);
                lemma_plain_ups(whole);
                if has_fewer_ups(way, whole) {
                    lemma_place(whole, disk);
                } else {
                    lemma_ups(path);
                    assert forall|i: int| 0 <= i < path.len() implies !((#[trigger] path[i])
                        is CurDir) && !(path[i] is ParentDir) by {
                        if i >= at {
                            assert(path[i] == rest[i - at]);
                        }
                    }
                    law_plain_path_stays(path);
                    lemma_nothing_there(disk, path);
                }
            }
        },
    }
}

// ---------------------------------------------------------------------------
// Laws
// ---------------------------------------------------------------------------

/// A path is resolved to where it really is: what comes out says where it starts, has no `.` or
/// `..` in it, and each part of it is at that very path on the filesystem, or is not there at
/// all, not even as a link. So nothing on the way leads elsewhere. The one exception is a path
/// that leads nowhere: there is no end of links on it.
pub proof fn law_place_is_where_it_says(
    path: Seq<Part>,
    disk: spec_fn(Seq<Part>) -> Found,
    cwd: Option<Seq<Part>>,
)
    requires
        is_filesystem(disk),
        is_tidy(path),
        is_anchored(path) || (cwd matches Some(start) && is_real(start)),
    ensures
        is_real(resolved_on(path, disk, cwd)),
        is_where_it_says(disk, resolved_on(path, disk, cwd)) || !ends(
            way_from(resolved_on(path, disk, cwd)),
            disk,
        ),
        ends(way_from(start_of(path, cwd)), disk) ==> is_where_it_says(
            disk,
            resolved_on(path, disk, cwd),
        ),
{
    let start = start_of(path, cwd);
    lemma_start(path, cwd);
    lemma_place(start, disk);
    lemma_way_parts(start, head_len(start));
    if ends(way_from(start), disk) {
        lemma_follow(way_from(start), disk);
    }
}

/// The sandbox holds: what it allows lies below one of the roots, by names alone, and really
/// lies there, or nowhere. No `..`, no link and no part that does not exist yet leads out of the
/// roots.
pub proof fn law_sandbox_holds(
    roots: Seq<Seq<Part>>,
    path: Seq<Part>,
    disk: spec_fn(Seq<Part>) -> Found,
    cwd: Option<Seq<Part>>,
)
    requires
        roots.len() > 0,
        is_filesystem(disk),
        is_tidy(path),
        is_anchored(path) || (cwd matches Some(start) && is_real(start)),
        allows(roots, resolved_on(path, disk, cwd)),
    ensures
        ({
            let place = resolved_on(path, disk, cwd);
            &&& is_where_it_says(disk, place) || !ends(way_from(place), disk)
            &&& exists|i: int|
                0 <= i < roots.len() && place == #[trigger] roots[i] + place.skip(
                    roots[i].len() as int,
                ) && forall|j: int|
                    roots[i].len() <= j < place.len() ==> !(#[trigger] place[j] is ParentDir)
        }),
{
    law_place_is_where_it_says(path, disk, cwd);
    let place = resolved_on(path, disk, cwd);
    let i = choose|i: int| 0 <= i < roots.len() && #[trigger] roots[i].is_prefix_of(place);
    assert(place =~= roots[i] + place.skip(roots[i].len() as int));
}

/// Without roots everything is allowed.
pub proof fn law_no_roots_allow_everything(place: Seq<Part>)
    ensures
        allows(Seq::empty(), place),
{
}

/// A path that exists is resolved to where the filesystem has it.
pub proof fn law_existing_path_is_resolved(path: Seq<Part>, disk: spec_fn(Seq<Part>) -> Found)
    requires
        disk(path) is There,
    ensures
        resolved(way_from(path), disk) == disk(path)->There_0,
{
    assert(path.take(path.len() as int) =~= path);
}

/// A path that does not exist is resolved to its nearest ancestor that does, with the names of
/// the path after it: so a file that is yet to be written, below a directory that is a link, is
/// placed where the link leads. The same holds where what is in between is a link that leads
/// nowhere.
pub proof fn law_nearest_ancestor_is_resolved(
    path: Seq<Part>,
    known: int,
    disk: spec_fn(Seq<Part>) -> Found,
)
    requires
        is_filesystem(disk),
        is_way(path),
        head_len(path) <= known < path.len(),
        disk(path.take(known)) is There,
        !climbs(path.skip(known)),
        forall|n: int| known < n <= path.len() ==> !(disk(#[trigger] path.take(n)) is There),
        (forall|n: int| known < n <= path.len() ==> disk(#[trigger] path.take(n)) is Missing)
            || !ends(way_from(path), disk),
    ensures
        resolved(way_from(path), disk) == disk(path.take(known))->There_0 + path.skip(known),
{
    let base = disk(path.take(known))->There_0;
    lemma_way_parts(path, known);
    lemma_names_after(base, path.skip(known));
    if ends(way_from(path), disk) {
        lemma_descends(path, path.len() as int, known, way_from(path), disk);
    } else {
        lemma_runs_out(way_from(path), disk);
        lemma_descends(path, path.len() as int, known, way_without_links(path), disk);
    }
}

/// Where nothing is that counts, the nearest ancestor that exists is found.
proof fn lemma_descends(
    path: Seq<Part>,
    at: int,
    known: int,
    way: Way,
    disk: spec_fn(Seq<Part>) -> Found,
)
    requires
        is_way(path),
        head_len(path) <= known <= at <= path.len(),
        known < path.len(),
        way.path == path,
        way.at == at,
        disk(path.take(known)) is There,
        !climbs(path.skip(known)),
        forall|n: int|
            known < n <= path.len() ==> disk(#[trigger] path.take(n)) is Missing || disk(
                path.take(n),
            ) is Link && !way.follows,
    ensures
        resolved(way, disk) == collapsed(disk(path.take(known))->There_0 + path.skip(known)),
    decreases at,
{
    if known < at {
        lemma_way_parts(path, at);
        assert(disk(path.take(at)) is Missing || disk(path.take(at)) is Link && !way.follows);
        lemma_descends(path, at - 1, known, Way { at: at - 1, ..way }, disk);
    }
}

/// A root that does not exist yet still matches once it is created: it is placed below its
/// nearest ancestor that exists, links and all, and what is created there later is resolved to
/// below that place.
pub proof fn law_root_created_later_still_matches(
    root: Seq<Part>,
    known: int,
    base: Seq<Part>,
    disk: spec_fn(Seq<Part>) -> Found,
    later: spec_fn(Seq<Part>) -> Found,
    below: Seq<Part>,
)
    requires
        is_filesystem(disk),
        is_filesystem(later),
        is_way(root),
        head_len(root) <= known < root.len(),
        !climbs(root.skip(known)),
        disk(root.take(known)) == Found::There(base),
        forall|n: int| known < n <= root.len() ==> disk(#[trigger] root.take(n)) is Missing,
        later(root.take(known)) == Found::There(base),
        later(base + root.skip(known)) == Found::There(base + root.skip(known)),
        is_steps(below),
        later(base + root.skip(known) + below) == Found::There(base + root.skip(known) + below),
    ensures
        ({
            let place = base + root.skip(known);
            &&& resolved(way_from(root), disk) == place
            &&& resolved(way_from(root + below), later) == place + below
            &&& allows(
                seq![resolved(way_from(root), disk)],
                resolved(way_from(root + below), later),
            )
        }),
{
    let names = root.skip(known);
    let place = base + names;
    lemma_way_parts(root, known);
    law_nearest_ancestor_is_resolved(root, known, disk);
    assert(later(root.take(known) + names) == later(later(root.take(known))->There_0 + names));
    assert(later(root) == Found::There(place));
    assert(later(root + below) == later(later(root)->There_0 + below));
    law_existing_path_is_resolved(root + below, later);
    let roots = seq![place];
    assert(roots[0].is_prefix_of(place + below));
}

/// Whether a way is nearer to its end than another.
pub open spec fn is_nearer(next: Way, way: Way) -> bool {
    let key = |w: Way|
        (
            ups(w.origin),
            if w.follows {
                1nat
            } else {
                0nat
            },
            w.links,
            ups(w.path),
            w.at,
        );
    let (a, b) = (key(next), key(way));
    ||| a.0 < b.0
    ||| a.0 == b.0 && a.1 < b.1
    ||| a.0 == b.0 && a.1 == b.1 && a.2 < b.2
    ||| a.0 == b.0 && a.1 == b.1 && a.2 == b.2 && a.3 < b.3
    ||| a.0 == b.0 && a.1 == b.1 && a.2 == b.2 && a.3 == b.3 && a.4 < b.4
}

/// A resolver that is told what the filesystem has comes to where the path leads: each step
/// either ends there, or leaves the same place to be found and is nearer to the end.
pub proof fn law_resolver_follows_the_disk(
    before: Resolver,
    after: Resolver,
    done: Option<Seq<Part>>,
    disk: spec_fn(Seq<Part>) -> Found,
)
    requires
        before.wf(),
        after.wf(),
        match step(before.way(), disk(before.way().path.take(before.way().at))) {
            Step::Done(place) => done == Some(place),
            Step::Ask(next) => done is None && after.way() == next,
        },
    ensures
        match done {
            Some(place) => place == resolved(before.way(), disk),
            None => resolved(after.way(), disk) == resolved(before.way(), disk) && is_nearer(
                after.way(),
                before.way(),
            ),
        },
{
}

// ---------------------------------------------------------------------------
// Laws of the text of paths
// ---------------------------------------------------------------------------

/// Leaving out every `.` keeps everything else, in order.
proof fn lemma_undotted_filters(path: Seq<Part>)
    ensures
        undotted(path) == path.filter(|part: Part| !(part is CurDir)),
    decreases path.len(),
{
    reveal(Seq::filter);
    if path.len() > 0 {
        lemma_undotted_filters(path.drop_last());
    }
}

/// The path to resolve has all that was given, in order and with every `..`, and only its `.`
/// left out. One that does not say where it starts comes after the whole of the current
/// directory.
pub proof fn law_path_to_resolve_has_all_that_was_given(path: Seq<Part>, cwd: Seq<Part>)
    requires
        is_plain(cwd),
    ensures
        ({
            let given = path.filter(|part: Part| !(part is CurDir));
            let says = path.len() > 0 && (path[0] is RootDir || path[0] is Prefix);
            &&& start_of(path, None) == given
            &&& says ==> start_of(path, Some(cwd)) == given
            &&& !says ==> start_of(path, Some(cwd)) == cwd + given
        }),
{
    lemma_undotted_filters(path);
    lemma_undotted_plain(cwd);
}

/// What exists is resolved to where the filesystem has it: a path that says where it starts as
/// it is, and any other one in the current directory, with every `..` that it has.
pub proof fn law_what_exists_is_resolved_from_the_current_directory(
    path: Seq<Part>,
    disk: spec_fn(Seq<Part>) -> Found,
    cwd: Seq<Part>,
    place: Seq<Part>,
)
    requires
        is_plain(cwd),
        disk(
            if path.len() > 0 && (path[0] is RootDir || path[0] is Prefix) {
                path.filter(|part: Part| !(part is CurDir))
            } else {
                cwd + path.filter(|part: Part| !(part is CurDir))
            },
        ) == Found::There(place),
    ensures
        resolved_on(path, disk, Some(cwd)) == place,
{
    law_path_to_resolve_has_all_that_was_given(path, cwd);
    law_existing_path_is_resolved(start_of(path, Some(cwd)), disk);
}

/// A name goes down, `..` takes the last name back, `.` does nothing, and above the root there
/// is only the root.
pub proof fn law_collapsing_goes_step_by_step(path: Seq<Part>, name: Seq<u8>)
    ensures
        collapsed(path.push(Part::Normal(name))) == collapsed(path).push(Part::Normal(name)),
        collapsed(path.push(Part::Normal(name)).push(Part::ParentDir)) == collapsed(path),
        collapsed(path.push(Part::CurDir)) == collapsed(path),
        collapsed(path.push(Part::RootDir)) == collapsed(path).push(Part::RootDir),
        collapsed(path.push(Part::RootDir).push(Part::ParentDir)) == collapsed(path).push(
            Part::RootDir,
        ),
        collapsed(Seq::empty()) == Seq::<Part>::empty(),
{
    let down = path.push(Part::Normal(name));
    let root = path.push(Part::RootDir);
    assert(down.drop_last() =~= path);
    assert(down.push(Part::ParentDir).drop_last() =~= down);
    assert(path.push(Part::CurDir).drop_last() =~= path);
    assert(root.drop_last() =~= path);
    assert(root.push(Part::ParentDir).drop_last() =~= root);
    assert(collapsed(path).push(Part::Normal(name)).drop_last() =~= collapsed(path));
    assert(collapsed(root) == collapsed(path).push(Part::RootDir));
    assert(collapsed(root.push(Part::ParentDir)) == up(collapsed(root)));
}

/// A normalized path is collapsed from its start: its own, or the current directory. One that
/// comes to nothing, with no current directory to be in, is `.`.
pub proof fn law_normalized_path_is_collapsed(path: Seq<Part>, cwd: Seq<Part>)
    ensures
        ({
            let says = path.len() > 0 && (path[0] is RootDir || path[0] is Prefix);
            &&& says ==> normalized(path, Some(cwd)) == collapsed(path) && normalized(path, None)
                == collapsed(path)
            &&& !says ==> normalized(path, Some(cwd)) == collapsed(cwd + path)
            &&& !says && collapsed(path).len() > 0 ==> normalized(path, None) == collapsed(path)
            &&& !says && collapsed(path).len() == 0 ==> normalized(path, None) == seq![
                Part::CurDir,
            ]
        }),
{
}

/// A place is allowed exactly where there are no roots, or where it has all the components of
/// one of them at its start: whole components, and the root itself too.
pub proof fn law_allowed_is_below_a_root(roots: Seq<Seq<Part>>, place: Seq<Part>)
    ensures
        allows(roots, place) <==> roots.len() == 0 || exists|i: int|
            0 <= i < roots.len() && (#[trigger] roots[i]).len() <= place.len() && forall|j: int|
                0 <= j < roots[i].len() ==> #[trigger] place[j] == roots[i][j],
{
    assert forall|i: int| 0 <= i < roots.len() implies (#[trigger] roots[i]).is_prefix_of(place)
        == (roots[i].len() <= place.len() && forall|j: int|
        0 <= j < roots[i].len() ==> #[trigger] place[j] == roots[i][j]) by {
        if roots[i].len() <= place.len() && (forall|j: int|
            0 <= j < roots[i].len() ==> #[trigger] place[j] == roots[i][j]) {
            assert(roots[i] =~= place.take(roots[i].len() as int));
        }
    }
}

// ---------------------------------------------------------------------------
// Laws of links
// ---------------------------------------------------------------------------

/// A link to what does not exist yet leads where its target would be, through as many links as
/// a system follows: so a write through it is held against the place where it lands.
pub proof fn law_link_leads_where_its_target_would_be(
    links: Seq<Seq<Part>>,
    target: Seq<Part>,
    name: Seq<u8>,
    base: Seq<Part>,
    disk: spec_fn(Seq<Part>) -> Found,
)
    requires
        0 < links.len() <= 40,
        is_real(target),
        is_real(base),
        forall|i: int|
            0 <= i < links.len() ==> is_real(#[trigger] links[i]) && disk(links[i]) == Found::Link(
                if i + 1 < links.len() {
                    links[i + 1]
                } else {
                    target.push(Part::Normal(name))
                },
            ),
        disk(target.push(Part::Normal(name))) is Missing,
        disk(target) == Found::There(base),
    ensures
        resolved(way_from(links[0]), disk) == base.push(Part::Normal(name)),
{
    lemma_chain(links, 0, target, name, base, disk, way_from(links[0]));
}

proof fn lemma_chain(
    links: Seq<Seq<Part>>,
    i: int,
    target: Seq<Part>,
    name: Seq<u8>,
    base: Seq<Part>,
    disk: spec_fn(Seq<Part>) -> Found,
    way: Way,
)
    requires
        0 <= i < links.len(),
        is_real(target),
        is_real(base),
        forall|i: int|
            0 <= i < links.len() ==> is_real(#[trigger] links[i]) && disk(links[i]) == Found::Link(
                if i + 1 < links.len() {
                    links[i + 1]
                } else {
                    target.push(Part::Normal(name))
                },
            ),
        disk(target.push(Part::Normal(name))) is Missing,
        disk(target) == Found::There(base),
        way.path == links[i],
        way.at == links[i].len(),
        way.follows,
        way.links >= links.len() - i,
    ensures
        resolved(way, disk) == base.push(Part::Normal(name)),
    decreases links.len() - i,
{
    let path = links[i];
    let said = if i + 1 < links.len() {
        links[i + 1]
    } else {
        target.push(Part::Normal(name))
    };
    let one = seq![Part::Normal(name)];
    assert(path.take(path.len() as int) =~= path);
    lemma_way_steps(target, one);
    lemma_names_after(target, one);
    assert(target + one =~= target.push(Part::Normal(name)));
    lemma_undotted_plain(said);
    assert(followed(path, path.len() as int, said) =~= said);
    let next = Way { path: said, at: said.len() as int, links: (way.links - 1) as nat, ..way };
    if i + 1 < links.len() {
        lemma_chain(links, i + 1, target, name, base, disk, next);
    } else {
        lemma_placed_in(said, target, name, base, disk, next);
    }
}

/// A name that is not there is placed in its directory.
proof fn lemma_placed_in(
    path: Seq<Part>,
    directory: Seq<Part>,
    name: Seq<u8>,
    base: Seq<Part>,
    disk: spec_fn(Seq<Part>) -> Found,
    way: Way,
)
    requires
        is_real(directory),
        is_real(base),
        path == directory.push(Part::Normal(name)),
        disk(path) is Missing,
        disk(directory) == Found::There(base),
        way.path == path,
        way.at == path.len(),
    ensures
        resolved(way, disk) == base.push(Part::Normal(name)),
{
    let one = seq![Part::Normal(name)];
    assert(path =~= directory + one);
    lemma_way_steps(directory, one);
    assert(path.take(path.len() as int) =~= path);
    assert(has_parent(path));
    assert(path.take(path.len() - 1) =~= directory);
    assert(path.skip(path.len() - 1) =~= one);
    lemma_names_after(base, one);
    assert(base + one =~= base.push(Part::Normal(name)));
    let up = Way { at: way.at - 1, ..way };
    assert(resolved(way, disk) == resolved(up, disk));
}

/// A link that says a name is taken in the directory where it stands.
pub proof fn law_relative_link_is_taken_in_its_directory(
    directory: Seq<Part>,
    link: Seq<u8>,
    name: Seq<u8>,
    base: Seq<Part>,
    disk: spec_fn(Seq<Part>) -> Found,
)
    requires
        is_real(directory),
        is_real(base),
        disk(directory.push(Part::Normal(link))) == Found::Link(seq![Part::Normal(name)]),
        disk(directory.push(Part::Normal(name))) is Missing,
        disk(directory) == Found::There(base),
    ensures
        resolved(way_from(directory.push(Part::Normal(link))), disk) == base.push(
            Part::Normal(name),
        ),
{
    let path = directory.push(Part::Normal(link));
    let said = seq![Part::Normal(name)];
    let way = way_from(path);
    assert(path.take(path.len() as int) =~= path);
    assert forall|i: int| 0 <= i < said.len() implies !((#[trigger] said[i]) is CurDir) && !(said[i]
        is ParentDir) by {}
    lemma_undotted_plain(said);
    let next = directory.push(Part::Normal(name));
    assert(followed(path, path.len() as int, said) =~= next);
    let after = Way { path: next, at: next.len() as int, links: (way.links - 1) as nat, ..way };
    lemma_placed_in(next, directory, name, base, disk, after);
}

/// Names are appended to a collapsed path one by one.
proof fn lemma_collapsed_names(path: Seq<Part>, names: Seq<Part>)
    requires
        is_steps(names),
        !climbs(names),
    ensures
        collapsed(path + names) == collapsed(path) + names,
    decreases names.len(),
{
    if names.len() == 0 {
        assert(path + names =~= path);
        assert(collapsed(path) + names =~= collapsed(path));
    } else {
        let fewer = names.drop_last();
        let last = names[names.len() - 1];
        assert(is_steps(fewer)) by {
            assert forall|i: int| 0 <= i < fewer.len() implies (#[trigger] fewer[i]) is Normal
                || fewer[i] is ParentDir by {
                assert(fewer[i] == names[i]);
            }
        }
        assert(!climbs(fewer)) by {
            if climbs(fewer) {
                let i = choose|i: int| 0 <= i < fewer.len() && (#[trigger] fewer[i]) is ParentDir;
                assert(names[i] is ParentDir);
            }
        }
        lemma_collapsed_names(path, fewer);
        assert(!(last is ParentDir));
        assert((path + names).drop_last() =~= path + fewer);
        assert(collapsed(path) + names =~= (collapsed(path) + fewer).push(last));
    }
}

/// A `..` after a directory that is not there leads back, and what follows it is asked for in
/// its own right, so that a link behind it is seen: the path leads where it would without both.
pub proof fn law_up_after_something_missing_is_asked_for_again(
    directory: Seq<Part>,
    missing: Seq<u8>,
    names: Seq<Part>,
    place: Seq<Part>,
    disk: spec_fn(Seq<Part>) -> Found,
)
    requires
        is_filesystem(disk),
        is_real(directory),
        disk(directory) == Found::There(directory),
        disk(directory.push(Part::Normal(missing))) is Missing,
        is_steps(names),
        !climbs(names),
        disk(directory + names) == Found::There(place),
    ensures
        resolved(
            way_from(directory + seq![Part::Normal(missing), Part::ParentDir] + names),
            disk,
        ) == place,
{
    let detour = seq![Part::Normal(missing), Part::ParentDir];
    let rest = detour + names;
    let path = directory + detour + names;
    assert(path =~= directory + rest);
    assert forall|i: int| 0 <= i < rest.len() implies (#[trigger] rest[i]) is Normal || rest[i]
        is ParentDir by {
        if i >= 2 {
            assert(rest[i] == names[i - 2]);
        }
    }
    lemma_way_steps(directory, rest);
    let n = directory.len() as int;
    assert forall|m: int| n < m <= path.len() implies disk(#[trigger] path.take(m)) is Missing by {
        let more = path.subrange(n + 1, m);
        lemma_way_parts(path, n + 1);
        lemma_steps_parts(path.skip(n + 1), 0, m - n - 1);
        assert(path.skip(n + 1).subrange(0, m - n - 1) =~= more);
        assert(directory.push(Part::Normal(missing)) + more =~= path.take(m));
        assert(disk(directory.push(Part::Normal(missing)) + more) is Missing);
    }
    let whole = directory + names;
    assert(path.take(n) =~= directory);
    assert(path.skip(n) =~= rest);
    assert(rest[1] is ParentDir);
    law_plain_path_stays(directory);
    law_collapsing_goes_step_by_step(directory, missing);
    assert(directory + detour =~= directory.push(Part::Normal(missing)).push(Part::ParentDir));
    lemma_collapsed_names(directory + detour, names);
    assert(collapsed(directory + rest) == whole);
    lemma_names_after(directory, names);
    lemma_plain_ups(whole);
    lemma_climbs_skip(path, n);
    lemma_down_to(path, path.len() as int, n, way_from(path), disk);
    let known = Way { at: n, ..way_from(path) };
    assert(resolved(known, disk) == resolved(turned_to(known, whole), disk));
    assert(whole.take(whole.len() as int) =~= whole);
}

/// Where nothing is of the longer ones, the shorter one is asked for.
proof fn lemma_down_to(
    path: Seq<Part>,
    at: int,
    known: int,
    way: Way,
    disk: spec_fn(Seq<Part>) -> Found,
)
    requires
        is_way(path),
        head_len(path) <= known <= at <= path.len(),
        way.path == path,
        way.at == at,
        forall|n: int| known < n <= path.len() ==> disk(#[trigger] path.take(n)) is Missing,
    ensures
        resolved(way, disk) == resolved(Way { at: known, ..way }, disk),
    decreases at,
{
    if known < at {
        lemma_way_parts(path, at);
        assert(disk(path.take(at)) is Missing);
        lemma_down_to(path, at - 1, known, Way { at: at - 1, ..way }, disk);
    }
}

/// A link to what does not exist yet is followed in the middle of a path too: the names after
/// it are placed below where its target would be.
pub proof fn law_link_in_the_middle_is_followed(
    directory: Seq<Part>,
    link: Seq<u8>,
    names: Seq<Part>,
    target: Seq<Part>,
    name: Seq<u8>,
    base: Seq<Part>,
    disk: spec_fn(Seq<Part>) -> Found,
)
    requires
        is_filesystem(disk),
        is_real(directory),
        is_real(target),
        is_steps(names),
        !climbs(names),
        disk(directory.push(Part::Normal(link))) == Found::Link(target.push(Part::Normal(name))),
        forall|n: int|
            0 < n <= names.len() ==> disk(
                directory.push(Part::Normal(link)) + #[trigger] names.take(n),
            ) is Missing,
        disk(target) == Found::There(base),
        disk(target.push(Part::Normal(name))) is Missing,
    ensures
        resolved(way_from(directory.push(Part::Normal(link)) + names), disk) == base.push(
            Part::Normal(name),
        ) + names,
{
    let head = directory.push(Part::Normal(link));
    let said = target.push(Part::Normal(name));
    let path = head + names;
    let one = seq![Part::Normal(name)];
    let link_one = seq![Part::Normal(link)];
    let at = head.len() as int;
    assert(head =~= directory + link_one);
    lemma_way_steps(directory, link_one);
    lemma_way_steps(head, names);
    assert(path.take(at) =~= head);
    assert(path.skip(at) =~= names);
    assert forall|m: int| at < m <= path.len() implies disk(#[trigger] path.take(m)) is Missing by {
        assert(path.take(m) =~= head + names.take(m - at));
    }
    lemma_down_to(path, path.len() as int, at, way_from(path), disk);
    // the link
    assert(said =~= target + one);
    lemma_way_steps(target, one);
    lemma_names_after(target, one);
    lemma_undotted_plain(said);
    let next = said + names;
    assert(followed(path, at, said) =~= next);
    let known = Way { at, ..way_from(path) };
    let after = Way {
        path: next,
        at: next.len() as int,
        links: (known.links - 1) as nat,
        ..known
    };
    assert(resolved(known, disk) == resolved(after, disk));
    // its target
    lemma_way_steps(said, names);
    let n = target.len() as int;
    let rest = one + names;
    assert(next.take(n) =~= target);
    assert(next.skip(n) =~= rest);
    assert forall|i: int| 0 <= i < rest.len() implies (#[trigger] rest[i]) is Normal || rest[i]
        is ParentDir by {
        if i >= 1 {
            assert(rest[i] == names[i - 1]);
        }
    }
    assert(!climbs(rest)) by {
        if climbs(rest) {
            let i = choose|i: int| 0 <= i < rest.len() && (#[trigger] rest[i]) is ParentDir;
            assert(i >= 1);
            assert(names[i - 1] is ParentDir);
        }
    }
    assert forall|m: int| n < m <= next.len() implies disk(#[trigger] next.take(m)) is Missing by {
        let more = names.subrange(0, m - n - 1);
        lemma_steps_parts(names, 0, m - n - 1);
        assert(next.take(m) =~= said + more);
        assert(disk(said + more) is Missing);
    }
    lemma_descends(next, next.len() as int, n, after, disk);
    lemma_names_after(base, rest);
    assert(base + rest =~= base.push(Part::Normal(name)) + names);
}

/// A path of names of which nothing exists stays as it is.
pub proof fn law_path_of_nothing_stays(path: Seq<Part>, disk: spec_fn(Seq<Part>) -> Found)
    requires
        is_real(path),
        forall|n: int|
            head_len(path) <= n <= path.len() ==> disk(#[trigger] path.take(n)) is Missing,
    ensures
        resolved(way_from(path), disk) == path,
{
    let h = head_len(path);
    lemma_way_parts(path, h);
    lemma_down_to(path, path.len() as int, h, way_from(path), disk);
    assert(disk(path.take(h)) is Missing);
    law_plain_path_stays(path);
}

} // verus!
