//! Paths as the byte strings the operating system knows them by, read
//! component by component.

use crate::text;
use vstd::prelude::*;
use vstd::slice::{slice_subrange, slice_to_vec};

verus! {

/// One component of a path.
pub enum Component {
    /// The leading separator of an absolute path.
    Root,
    /// A leading `.`.
    Current,
    /// A `..`.
    Parent,
    /// Any other name.
    Name(Seq<u8>),
}

/// The bytes from `start` up to, but not including, `end`.
pub struct Span {
    pub start: usize,
    pub end: usize,
}

/// A path, kept byte for byte.
pub struct FsPath {
    bytes: Vec<u8>,
}

impl View for FsPath {
    type V = Seq<u8>;

    closed spec fn view(&self) -> Seq<u8> {
        self.bytes@
    }
}

/// A path that starts at the root.
pub open spec fn is_absolute(path: Seq<u8>) -> bool {
    path.len() > 0 && path[0] == 0x2f
}

/// A path whose first segment is a single dot.
pub open spec fn starts_with_dot(path: Seq<u8>) -> bool {
    path.len() > 0 && path[0] == 0x2e && (path.len() == 1 || path[1] == 0x2f)
}

/// Whether a segment between separators counts: empty segments and single
/// dots do not.
pub open spec fn is_significant(segment: Seq<u8>) -> bool {
    segment.len() > 0 && segment != seq![0x2eu8]
}

/// The segment from `start` to `end` as a list of spans: empty if the segment
/// does not count.
pub open spec fn segment_spans(path: Seq<u8>, start: int, end: int) -> Seq<(int, int)> {
    if is_significant(path.subrange(start, end)) {
        seq![(start, end)]
    } else {
        seq![]
    }
}

/// The spans of the significant segments of a path, where the segment being
/// read began at `start` and `at` is the next byte.
pub open spec fn spans_from(path: Seq<u8>, start: int, at: int) -> Seq<(int, int)>
    decreases path.len() - at,
{
    if at >= path.len() {
        segment_spans(path, start, path.len() as int)
    } else if path[at] == 0x2f {
        segment_spans(path, start, at) + spans_from(path, at + 1, at + 1)
    } else {
        spans_from(path, start, at + 1)
    }
}

/// Where the segments of a path begin: after the root, or after a leading dot.
pub open spec fn body_start(path: Seq<u8>) -> int {
    if is_absolute(path) || starts_with_dot(path) {
        1
    } else {
        0
    }
}

/// The spans of the names in a path.
pub open spec fn name_spans(path: Seq<u8>) -> Seq<(int, int)> {
    spans_from(path, body_start(path), body_start(path))
}

/// What stands before the names of a path.
pub open spec fn leading_component(path: Seq<u8>) -> Seq<Component> {
    if is_absolute(path) {
        seq![Component::Root]
    } else if starts_with_dot(path) {
        seq![Component::Current]
    } else {
        seq![]
    }
}

/// The component that a significant segment stands for.
pub open spec fn segment_component(segment: Seq<u8>) -> Component {
    if segment == seq![0x2eu8, 0x2eu8] {
        Component::Parent
    } else {
        Component::Name(segment)
    }
}

/// The components of a path: repeated and trailing separators and inner dots
/// do not count.
pub open spec fn components(path: Seq<u8>) -> Seq<Component> {
    leading_component(path) + name_spans(path).map_values(
        |span: (int, int)| segment_component(path.subrange(span.0, span.1)),
    )
}

/// Two spellings of the same path.
pub open spec fn same_path(a: Seq<u8>, b: Seq<u8>) -> bool {
    components(a) == components(b)
}

/// Whether `base` is `path` or one of its ancestors, component by component.
pub open spec fn starts_with(path: Seq<u8>, base: Seq<u8>) -> bool {
    components(base).is_prefix_of(components(path))
}

/// The last component of a path, if it is a name.
pub open spec fn file_name(path: Seq<u8>) -> Option<Seq<u8>> {
    if components(path).len() > 0 {
        match components(path).last() {
            Component::Name(name) => Some(name),
            _ => None,
        }
    } else {
        None
    }
}

/// The path without its last component; a root and an empty path have none.
pub open spec fn parent(path: Seq<u8>) -> Option<Seq<u8>> {
    let spans = name_spans(path);
    if spans.len() >= 2 {
        Some(path.take(spans[spans.len() - 2].1))
    } else if spans.len() == 1 {
        Some(path.take(body_start(path)))
    } else if starts_with_dot(path) {
        Some(seq![])
    } else {
        None
    }
}

/// The path of an entry below `base`; an absolute entry replaces the base.
pub open spec fn join(base: Seq<u8>, entry: Seq<u8>) -> Seq<u8> {
    if is_absolute(entry) {
        entry
    } else if base.len() > 0 && base.last() != 0x2f {
        base.push(0x2f) + entry
    } else {
        base + entry
    }
}

/// A path with its ancestors, the nearest first.
pub open spec fn ancestors(path: Seq<u8>) -> Seq<Seq<u8>>
    decreases path.len(),
{
    match parent(path) {
        Some(up) => {
            proof {
                lemma_parent_is_shorter(path);
            }
            seq![path] + ancestors(up)
        },
        None => seq![path],
    }
}

/// A name that can stand as one segment of a path: not empty, not a single
/// dot, and without a separator.
pub open spec fn is_segment(name: Seq<u8>) -> bool {
    is_significant(name) && !name.contains(0x2f)
}

spec fn in_order(spans: Seq<(int, int)>, low: int, end: int, high: int) -> bool {
    &&& forall|i: int|
        0 <= i < spans.len() ==> low <= (#[trigger] spans[i]).0 < spans[i].1 <= high && end
            <= spans[i].1
    &&& forall|i: int, j: int|
        0 <= i < j < spans.len() ==> (#[trigger] spans[i]).1 < (#[trigger] spans[j]).0
}

proof fn lemma_spans_in_order(path: Seq<u8>, start: int, at: int)
    requires
        0 <= start <= at <= path.len(),
    ensures
        in_order(spans_from(path, start, at), start, at, path.len() as int),
    decreases path.len() - at,
{
    if at < path.len() {
        if path[at] == 0x2f {
            lemma_spans_in_order(path, at + 1, at + 1);
            let head = segment_spans(path, start, at);
            let rest = spans_from(path, at + 1, at + 1);
            let all = head + rest;
            assert forall|i: int| 0 <= i < all.len() implies start <= (#[trigger] all[i]).0
                < all[i].1 <= path.len() && at <= all[i].1 by {
                if i >= head.len() {
                    assert(all[i] == rest[i - head.len()]);
                }
            }
            assert forall|i: int, j: int| 0 <= i < j < all.len() implies (#[trigger] all[i]).1 < (
            #[trigger] all[j]).0 by {
                assert(all[j] == rest[j - head.len()]);
                if i >= head.len() {
                    assert(all[i] == rest[i - head.len()]);
                }
            }
        } else {
            lemma_spans_in_order(path, start, at + 1);
        }
    }
}

/// The parent of a path is shorter than the path.
pub proof fn lemma_parent_is_shorter(path: Seq<u8>)
    requires
        parent(path) is Some,
    ensures
        parent(path)->0.len() < path.len(),
{
    let spans = name_spans(path);
    lemma_spans_in_order(path, body_start(path), body_start(path));
    if spans.len() >= 2 {
        assert(spans[spans.len() - 2].1 < spans[spans.len() - 1].0);
    } else if spans.len() == 1 {
        assert(body_start(path) <= spans[0].0);
    }
}

/// Cutting a path at the end of one of its names keeps the names up to there.
proof fn lemma_spans_of_prefix(path: Seq<u8>, start: int, at: int, k: int)
    requires
        0 <= start <= at <= path.len(),
        0 <= k < spans_from(path, start, at).len(),
    ensures
        spans_from(path.take(spans_from(path, start, at)[k].1), start, at) == spans_from(
            path,
            start,
            at,
        ).take(k + 1),
    decreases path.len() - at,
{
    let spans = spans_from(path, start, at);
    let cut = path.take(spans[k].1);
    lemma_spans_in_order(path, start, at);
    if at >= path.len() {
        assert(cut =~= path);
        assert(spans.take(k + 1) =~= spans);
    } else if path[at] == 0x2f {
        let head = segment_spans(path, start, at);
        let rest = spans_from(path, at + 1, at + 1);
        if k < head.len() {
            assert(spans[k] == head[k]);
            assert(cut.subrange(start, at) =~= path.subrange(start, at));
            assert(spans.take(k + 1) =~= head);
        } else {
            lemma_spans_in_order(path, at + 1, at + 1);
            assert(spans[k] == rest[k - head.len()]);
            lemma_spans_of_prefix(path, at + 1, at + 1, k - head.len());
            assert(cut.subrange(start, at) =~= path.subrange(start, at));
            assert(spans.take(k + 1) =~= head + rest.take(k - head.len() + 1));
        }
    } else {
        lemma_spans_in_order(path, start, at + 1);
        lemma_spans_of_prefix(path, start, at + 1, k);
    }
}

/// Taking the parent of a path takes away its last component.
pub proof fn lemma_parent_components(path: Seq<u8>)
    requires
        parent(path) is Some,
    ensures
        components(path).len() > 0,
        components(parent(path)->0) == components(path).drop_last(),
{
    let spans = name_spans(path);
    let up = parent(path)->0;
    let start = body_start(path);
    lemma_spans_in_order(path, start, start);
    if spans.len() >= 2 {
        let k = spans.len() - 2;
        lemma_spans_of_prefix(path, start, start, k);
        assert(spans[k].0 < spans[k].1 && start <= spans[k].0);
        if start == 0 && starts_with_dot(up) {
            assert(spans[0].0 < spans[0].1);
            if up.len() == 1 {
                assert(k == 0 ==> path.subrange(spans[0].0, spans[0].1) =~= seq![0x2eu8]);
                assert(k > 0 ==> spans[0].1 < spans[k].0);
                lemma_spans_significant(path, start, start);
            }
        }
        assert(name_spans(up) == spans.take(k + 1));
        assert forall|i: int| 0 <= i < k + 1 implies up.subrange(
            #[trigger] spans[i].0,
            spans[i].1,
        ) == path.subrange(spans[i].0, spans[i].1) by {
            if i < k {
                assert(spans[i].1 < spans[k].0);
            }
            assert(up.subrange(spans[i].0, spans[i].1) =~= path.subrange(spans[i].0, spans[i].1));
        }
        assert(components(up) =~= components(path).drop_last());
    } else if spans.len() == 1 {
        assert(name_spans(up) =~= seq![]);
        assert(components(up) =~= components(path).drop_last());
    } else {
        assert(name_spans(up) =~= seq![]);
        assert(components(up) =~= components(path).drop_last());
    }
}

spec fn all_significant(path: Seq<u8>, spans: Seq<(int, int)>) -> bool {
    forall|i: int|
        0 <= i < spans.len() ==> is_significant(
            path.subrange((#[trigger] spans[i]).0, spans[i].1),
        )
}

proof fn lemma_spans_significant(path: Seq<u8>, start: int, at: int)
    requires
        0 <= start <= at <= path.len(),
    ensures
        all_significant(path, spans_from(path, start, at)),
    decreases path.len() - at,
{
    if at < path.len() {
        if path[at] == 0x2f {
            lemma_spans_significant(path, at + 1, at + 1);
            let head = segment_spans(path, start, at);
            let rest = spans_from(path, at + 1, at + 1);
            let all = head + rest;
            assert forall|i: int| 0 <= i < all.len() implies is_significant(
                path.subrange((#[trigger] all[i]).0, all[i].1),
            ) by {
                if i >= head.len() {
                    assert(all[i] == rest[i - head.len()]);
                }
            }
        } else {
            lemma_spans_significant(path, start, at + 1);
        }
    }
}

spec fn without_separators(path: Seq<u8>, spans: Seq<(int, int)>) -> bool {
    forall|i: int, k: int|
        0 <= i < spans.len() && (#[trigger] spans[i]).0 <= k < spans[i].1 ==> (#[trigger] path[k])
            != 0x2f
}

proof fn lemma_spans_without_separators(path: Seq<u8>, start: int, at: int)
    requires
        0 <= start <= at <= path.len(),
        forall|k: int| start <= k < at ==> path[k] != 0x2f,
    ensures
        without_separators(path, spans_from(path, start, at)),
    decreases path.len() - at,
{
    if at < path.len() {
        if path[at] == 0x2f {
            lemma_spans_without_separators(path, at + 1, at + 1);
            let head = segment_spans(path, start, at);
            let rest = spans_from(path, at + 1, at + 1);
            let all = head + rest;
            assert forall|i: int, k: int|
                0 <= i < all.len() && (#[trigger] all[i]).0 <= k < all[i].1 implies (
            #[trigger] path[k]) != 0x2f by {
                if i >= head.len() {
                    assert(all[i] == rest[i - head.len()]);
                }
            }
        } else {
            lemma_spans_without_separators(path, start, at + 1);
        }
    }
}

/// The name of a file is one segment, and not a double dot.
pub proof fn lemma_file_name_is_segment(path: Seq<u8>)
    requires
        file_name(path) is Some,
    ensures
        is_segment(file_name(path)->0),
        file_name(path)->0 != seq![0x2eu8, 0x2eu8],
{
    let start = body_start(path);
    let spans = name_spans(path);
    lemma_spans_in_order(path, start, start);
    lemma_spans_significant(path, start, start);
    lemma_spans_without_separators(path, start, start);
    assert(spans.len() > 0) by {
        if spans.len() == 0 {
            assert(components(path) =~= leading_component(path));
        }
    }
    let last = spans[spans.len() - 1];
    let name = path.subrange(last.0, last.1);
    assert(components(path).last() == segment_component(name));
    if name.contains(0x2f) {
        let k = choose|k: int| 0 <= k < name.len() && name[k] == 0x2f;
        assert(path[last.0 + k] == name[k]);
    }
}

/// A name at the end of a path is read as one segment.
proof fn lemma_spans_of_last_segment(path: Seq<u8>, start: int, at: int)
    requires
        0 <= start <= at <= path.len(),
        is_significant(path.subrange(start, path.len() as int)),
        forall|i: int| at <= i < path.len() ==> path[i] != 0x2f,
    ensures
        spans_from(path, start, at) == seq![(start, path.len() as int)],
    decreases path.len() - at,
{
    if at < path.len() {
        lemma_spans_of_last_segment(path, start, at + 1);
    }
}

/// Appending a separator and a name to a path appends a span.
proof fn lemma_spans_of_join(base: Seq<u8>, name: Seq<u8>, start: int, at: int)
    requires
        0 <= start <= at <= base.len(),
        base.len() > 0,
        is_segment(name),
        base.last() == 0x2f && at == base.len() ==> start == at,
    ensures
        spans_from(join(base, name), start, at) == spans_from(base, start, at).push(
            (join(base, name).len() - name.len(), join(base, name).len() as int),
        ),
    decreases base.len() - at,
{
    let whole = join(base, name);
    let tail = whole.len() - name.len();
    assert(!is_absolute(name)) by {
        if is_absolute(name) {
            assert(name[0] == 0x2f);
        }
    }
    assert(whole.subrange(tail, whole.len() as int) =~= name);
    assert forall|i: int| tail <= i < whole.len() implies whole[i] != 0x2f by {
        assert(whole[i] == name[i - tail]);
        assert(name.contains(name[i - tail]));
    }
    if at >= base.len() {
        if base.last() == 0x2f {
            lemma_spans_of_last_segment(whole, start, at);
            assert(spans_from(base, start, at) =~= seq![]);
            assert(spans_from(whole, start, at) =~= seq![].push((tail, whole.len() as int)));
        } else {
            lemma_spans_of_last_segment(whole, at + 1, at + 1);
            assert(whole.subrange(start, at) =~= base.subrange(start, at));
            assert(spans_from(whole, start, at) =~= segment_spans(base, start, at).push(
                (tail, whole.len() as int),
            ));
        }
    } else if base[at] == 0x2f {
        lemma_spans_of_join(base, name, at + 1, at + 1);
        assert(whole.subrange(start, at) =~= base.subrange(start, at));
        assert(spans_from(whole, start, at) =~= spans_from(base, start, at).push(
            (tail, whole.len() as int),
        ));
    } else {
        lemma_spans_of_join(base, name, start, at + 1);
    }
}

/// Joining a name to a path adds one component.
pub proof fn lemma_join_components(base: Seq<u8>, name: Seq<u8>)
    requires
        is_segment(name),
    ensures
        components(join(base, name)) == components(base).push(segment_component(name)),
{
    let whole = join(base, name);
    assert(!is_absolute(name)) by {
        if is_absolute(name) {
            assert(name[0] == 0x2f);
        }
    }
    let tail = whole.len() - name.len();
    assert(whole.subrange(tail, whole.len() as int) =~= name);
    if base.len() == 0 {
        assert(whole =~= name);
        assert(!starts_with_dot(name)) by {
            if starts_with_dot(name) {
                if name.len() == 1 {
                    assert(name =~= seq![0x2eu8]);
                } else {
                    assert(name.contains(name[1]));
                }
            }
        }
        assert forall|i: int| 0 <= i < whole.len() implies whole[i] != 0x2f by {
            assert(name.contains(name[i]));
        }
        assert(whole.subrange(0, whole.len() as int) =~= whole);
        lemma_spans_of_last_segment(whole, 0, 0);
        assert(name_spans(base) =~= seq![]);
        assert(components(whole) =~= components(base).push(segment_component(name)));
    } else {
        let start = body_start(base);
        assert(body_start(whole) == start && leading_component(whole) =~= leading_component(base));
        lemma_spans_of_join(base, name, start, start);
        lemma_spans_in_order(base, start, start);
        let spans = name_spans(base);
        assert forall|i: int| 0 <= i < spans.len() implies whole.subrange(
            (#[trigger] spans[i]).0,
            spans[i].1,
        ) == base.subrange(spans[i].0, spans[i].1) by {
            assert(whole.subrange(spans[i].0, spans[i].1) =~= base.subrange(
                spans[i].0,
                spans[i].1,
            ));
        }
        assert(components(whole) =~= components(base).push(segment_component(name)));
    }
}

/// An entry joined to a path has its own name, and the path as its parent.
pub proof fn lemma_join_then_split(base: Seq<u8>, name: Seq<u8>)
    requires
        is_segment(name),
        name != seq![0x2eu8, 0x2eu8],
    ensures
        file_name(join(base, name)) == Some(name),
        parent(join(base, name)) is Some,
        same_path(parent(join(base, name))->0, base),
{
    let whole = join(base, name);
    lemma_join_components(base, name);
    assert(name_spans(whole).len() > 0) by {
        if name_spans(whole).len() == 0 {
            assert(components(whole) =~= leading_component(whole));
        }
    }
    lemma_parent_components(whole);
    assert(components(base).push(segment_component(name)).drop_last() =~= components(base));
}

/// A path that is spelled in the shortest way: it has no separator at its end or
/// next to another one, and no segment that is a single dot.
pub open spec fn is_normal(path: Seq<u8>) -> bool {
    &&& forall|k: int|
        0 <= k < path.len() && #[trigger] path[k] == 0x2f ==> path.len() == 1 || (k + 1 < path.len()
            && path[k + 1] != 0x2f)
    &&& forall|k: int|
        0 <= k < path.len() && #[trigger] path[k] == 0x2e && (k == 0 || path[k - 1] == 0x2f) ==> k
            + 1 < path.len() && path[k + 1] != 0x2f
}

spec fn ends_at_separators(path: Seq<u8>, spans: Seq<(int, int)>) -> bool {
    forall|i: int|
        0 <= i < spans.len() ==> (#[trigger] spans[i]).1 == path.len() || path[spans[i].1] == 0x2f
}

proof fn lemma_spans_end_at_separators(path: Seq<u8>, start: int, at: int)
    requires
        0 <= start <= at <= path.len(),
    ensures
        ends_at_separators(path, spans_from(path, start, at)),
    decreases path.len() - at,
{
    if at < path.len() {
        if path[at] == 0x2f {
            lemma_spans_end_at_separators(path, at + 1, at + 1);
            let head = segment_spans(path, start, at);
            let rest = spans_from(path, at + 1, at + 1);
            let all = head + rest;
            assert forall|i: int| 0 <= i < all.len() implies (#[trigger] all[i]).1 == path.len()
                || path[all[i].1] == 0x2f by {
                if i >= head.len() {
                    assert(all[i] == rest[i - head.len()]);
                }
            }
        } else {
            lemma_spans_end_at_separators(path, start, at + 1);
        }
    }
}

/// The parent of a path in its shortest spelling is spelled so too.
pub proof fn lemma_parent_is_normal(path: Seq<u8>)
    requires
        is_normal(path),
        parent(path) is Some,
    ensures
        is_normal(parent(path)->0),
{
    let spans = name_spans(path);
    let start = body_start(path);
    let up = parent(path)->0;
    lemma_spans_in_order(path, start, start);
    lemma_spans_end_at_separators(path, start, start);
    if spans.len() >= 2 {
        let end = spans[spans.len() - 2].1;
        assert(end < spans[spans.len() - 1].0);
        assert(path[end] == 0x2f);
        assert(path[end - 1] != 0x2f);
        assert forall|k: int| 0 <= k < up.len() && #[trigger] up[k] == 0x2f implies up.len() == 1
            || (k + 1 < up.len() && up[k + 1] != 0x2f) by {
            assert(path[k] == up[k]);
        }
        assert forall|k: int|
            0 <= k < up.len() && #[trigger] up[k] == 0x2e && (k == 0 || up[k - 1] == 0x2f) implies k
            + 1 < up.len() && up[k + 1] != 0x2f by {
            assert(path[k] == up[k]);
        }
    } else if spans.len() == 1 {
        assert(up.len() <= 1);
        assert(!starts_with_dot(path));
    } else {
        assert(!starts_with_dot(path));
    }
}

/// Names with a separator between them.
spec fn joined_names(names: Seq<Seq<u8>>) -> Seq<u8>
    decreases names.len(),
{
    if names.len() == 0 {
        seq![]
    } else if names.len() == 1 {
        names[0]
    } else {
        names[0] + seq![0x2fu8] + joined_names(names.drop_first())
    }
}

/// The segments at these spans.
spec fn segments(path: Seq<u8>, spans: Seq<(int, int)>) -> Seq<Seq<u8>> {
    spans.map_values(|span: (int, int)| path.subrange(span.0, span.1))
}

/// The shortest spelling is that of its names with single separators between.
proof fn lemma_normal_spelling(path: Seq<u8>, start: int, at: int)
    requires
        is_normal(path),
        0 <= start <= at <= path.len(),
        start < path.len(),
        path[start] != 0x2f,
        start == 0 || path[start - 1] == 0x2f,
    ensures
        spans_from(path, start, at).len() > 0,
        path.subrange(start, path.len() as int) == joined_names(
            segments(path, spans_from(path, start, at)),
        ),
    decreases path.len() - at,
{
    let spans = spans_from(path, start, at);
    let names = segments(path, spans);
    if at >= path.len() {
        let segment = path.subrange(start, at);
        assert(is_significant(segment)) by {
            if segment == seq![0x2eu8] {
                assert(segment.len() == 1 && segment[0] == 0x2e);
                assert(path[start] == 0x2e);
            }
        }
        assert(names[0] == segment);
    } else if path[at] == 0x2f {
        let segment = path.subrange(start, at);
        let rest = spans_from(path, at + 1, at + 1);
        assert(is_significant(segment)) by {
            if segment == seq![0x2eu8] {
                assert(segment.len() == 1 && segment[0] == 0x2e);
                assert(path[start] == 0x2e && path[start + 1] == 0x2f);
            }
        }
        assert(spans =~= seq![(start, at)] + rest);
        lemma_normal_spelling(path, at + 1, at + 1);
        assert(names[0] == segment);
        assert(names.drop_first() =~= segments(path, rest));
        assert(path.subrange(start, path.len() as int) =~= segment + seq![0x2fu8] + path.subrange(
            at + 1,
            path.len() as int,
        ));
    } else {
        lemma_normal_spelling(path, start, at + 1);
    }
}

/// What stands before the names, and the names, spell a path in the shortest way.
proof fn lemma_normal_path(path: Seq<u8>)
    requires
        is_normal(path),
    ensures
        path == path.take(body_start(path)) + joined_names(segments(path, name_spans(path))),
        !starts_with_dot(path),
{
    let start = body_start(path);
    assert(!starts_with_dot(path));
    if start < path.len() {
        assert(start == 1 ==> path[0] == 0x2f);
        lemma_normal_spelling(path, start, start);
        assert(path =~= path.take(start) + path.subrange(start, path.len() as int));
    } else {
        assert(name_spans(path) =~= seq![]);
        assert(segments(path, name_spans(path)) =~= seq![]);
        assert(path =~= path.take(start) + seq![]);
    }
}

/// Two paths in their shortest spelling are the same path only if they are spelled
/// alike.
pub proof fn lemma_normal_paths_are_spelled_alike(a: Seq<u8>, b: Seq<u8>)
    requires
        is_normal(a),
        is_normal(b),
        same_path(a, b),
    ensures
        a == b,
{
    lemma_normal_path(a);
    lemma_normal_path(b);
    let names_a = segments(a, name_spans(a));
    let names_b = segments(b, name_spans(b));
    let lead_a = leading_component(a);
    let lead_b = leading_component(b);
    if lead_a.len() > 0 {
        assert(components(a)[0] == lead_a[0]);
        assert(components(b)[0] == lead_a[0]);
    }
    if lead_b.len() > 0 {
        assert(components(b)[0] == lead_b[0]);
    }
    assert(lead_a =~= lead_b);
    let count = name_spans(a).len() as int;
    assert(components(a).len() == lead_a.len() + count);
    assert(components(b).len() == lead_a.len() + name_spans(b).len());
    lemma_components_by_names(a, b, count);
    assert forall|i: int| 0 <= i < count implies names_a[i] == names_b[i] by {
        assert(a.subrange(name_spans(a)[i].0, name_spans(a)[i].1) == b.subrange(
            name_spans(b)[i].0,
            name_spans(b)[i].1,
        ));
    }
    assert(names_a =~= names_b);
    assert(a.take(body_start(a)) =~= b.take(body_start(b)));
}

/// The spans of the names in a path, as pairs of numbers.
spec fn span_pairs(spans: Seq<Span>) -> Seq<(int, int)> {
    spans.map_values(|span: Span| (span.start as int, span.end as int))
}

/// The contents of an optional path.
pub open spec fn path_option(path: Option<FsPath>) -> Option<Seq<u8>> {
    match path {
        Some(path) => Some(path@),
        None => None,
    }
}

/// The contents of an optional byte string.
pub open spec fn bytes_option(bytes: Option<Vec<u8>>) -> Option<Seq<u8>> {
    match bytes {
        Some(bytes) => Some(bytes@),
        None => None,
    }
}

/// The contents of a list of paths.
pub open spec fn path_list(paths: Seq<FsPath>) -> Seq<Seq<u8>> {
    paths.map_values(|path: FsPath| path@)
}

/// The text that a byte string stands for when invalid UTF-8 is replaced by
/// U+FFFD.
pub uninterp spec fn utf8_lossy(bytes: Seq<u8>) -> Seq<char>;

/// `String::from_utf8_lossy`: the text of a byte string, with U+FFFD in place of
/// what is not UTF-8. Valid UTF-8 is decoded as it stands. Which runs of invalid
/// bytes share one replacement is left to the name `utf8_lossy`.
#[verifier::external_body]
pub(crate) fn lossy_text(bytes: &[u8]) -> (s: String)
    ensures
        s@ == utf8_lossy(bytes@),
        vstd::utf8::valid_utf8(bytes@) ==> s@ == vstd::utf8::decode_utf8(bytes@),
{
    String::from_utf8_lossy(bytes).into_owned()
}

impl Clone for FsPath {
    fn clone(&self) -> (copy: Self)
        ensures
            copy@ == self@,
    {
        let bytes = self.bytes.clone();
        assert(bytes@ =~= self.bytes@);
        FsPath { bytes }
    }
}

impl FsPath {
    /// The path spelled by these bytes.
    pub fn new(bytes: Vec<u8>) -> (path: FsPath)
        ensures
            path@ == bytes@,
    {
        FsPath { bytes }
    }

    /// The path spelled by this text.
    pub fn from_text(text: &str) -> (path: FsPath)
        ensures
            path@ == vstd::utf8::encode_utf8(text@),
    {
        FsPath { bytes: text.as_bytes_vec() }
    }

    /// The bytes of the path.
    pub fn as_bytes(&self) -> (bytes: &[u8])
        ensures
            bytes@ == self@,
    {
        self.bytes.as_slice()
    }

    /// The path as text, with U+FFFD in place of what is not UTF-8.
    pub fn to_text(&self) -> (s: String)
        ensures
            s@ == utf8_lossy(self@),
            vstd::utf8::valid_utf8(self@) ==> s@ == vstd::utf8::decode_utf8(self@),
    {
        lossy_text(self.bytes.as_slice())
    }

    fn is_absolute(&self) -> (absolute: bool)
        ensures
            absolute == is_absolute(self@),
    {
        self.bytes.len() > 0 && self.bytes[0] == 0x2f
    }

    fn starts_with_dot(&self) -> (dot: bool)
        ensures
            dot == starts_with_dot(self@),
    {
        self.bytes.len() > 0 && self.bytes[0] == 0x2e && (self.bytes.len() == 1 || self.bytes[1]
            == 0x2f)
    }

    /// Whether the segment from `start` to `end` counts.
    fn is_significant(&self, start: usize, end: usize) -> (significant: bool)
        requires
            start <= end <= self@.len(),
        ensures
            significant == is_significant(self@.subrange(start as int, end as int)),
    {
        let ghost segment = self@.subrange(start as int, end as int);
        proof {
            if segment.len() == 1 && segment[0] == 0x2e {
                assert(segment =~= seq![0x2eu8]);
            }
        }
        end > start && !(end - start == 1 && self.bytes[start] == 0x2e)
    }

    /// The spans of the names in the path.
    fn spans(&self) -> (spans: Vec<Span>)
        ensures
            span_pairs(spans@) == name_spans(self@),
    {
        let first: usize = if self.is_absolute() || self.starts_with_dot() {
            1
        } else {
            0
        };
        let mut spans: Vec<Span> = Vec::new();
        let mut start: usize = first;
        let mut at: usize = first;
        assert(span_pairs(spans@) + spans_from(self@, start as int, at as int) =~= name_spans(
            self@,
        ));
        while at < self.bytes.len()
            invariant
                start <= at <= self@.len(),
                name_spans(self@) == span_pairs(spans@) + spans_from(
                    self@,
                    start as int,
                    at as int,
                ),
            decreases self.bytes.len() - at,
        {
            if self.bytes[at] == 0x2f {
                let ghost before = span_pairs(spans@);
                let ghost rest = spans_from(self@, at + 1, at + 1);
                if self.is_significant(start, at) {
                    spans.push(Span { start, end: at });
                    assert(span_pairs(spans@) =~= before.push((start as int, at as int)));
                }
                assert(name_spans(self@) =~= span_pairs(spans@) + rest);
                start = at + 1;
            }
            at += 1;
        }
        let ghost before = span_pairs(spans@);
        if self.is_significant(start, at) {
            spans.push(Span { start, end: at });
            assert(span_pairs(spans@) =~= before.push((start as int, at as int)));
        }
        assert(name_spans(self@) =~= span_pairs(spans@));
        spans
    }

    /// The bytes from `start` to `end`.
    fn slice(&self, start: usize, end: usize) -> (bytes: Vec<u8>)
        requires
            start <= end <= self@.len(),
        ensures
            bytes@ == self@.subrange(start as int, end as int),
    {
        slice_to_vec(slice_subrange(self.bytes.as_slice(), start, end))
    }

    /// The last component of the path, if it is a name.
    pub fn file_name(&self) -> (name: Option<Vec<u8>>)
        ensures
            bytes_option(name) == file_name(self@),
    {
        let spans = self.spans();
        proof {
            lemma_spans_in_order(self@, body_start(self@), body_start(self@));
        }
        if spans.len() == 0 {
            assert(components(self@) =~= leading_component(self@));
            return None;
        }
        let ghost k = spans@.len() - 1;
        assert(span_pairs(spans@)[k] == (spans@[k].start as int, spans@[k].end as int));
        let last = &spans[spans.len() - 1];
        let name = self.slice(last.start, last.end);
        assert(components(self@).last() == segment_component(name@));
        if name.len() == 2 && name[0] == 0x2e && name[1] == 0x2e {
            assert(name@ =~= seq![0x2eu8, 0x2eu8]);
            None
        } else {
            Some(name)
        }
    }

    /// The path without its last component.
    pub fn parent(&self) -> (up: Option<FsPath>)
        ensures
            path_option(up) == parent(self@),
    {
        let spans = self.spans();
        proof {
            lemma_spans_in_order(self@, body_start(self@), body_start(self@));
        }
        if spans.len() >= 2 {
            let ghost k = spans@.len() - 2;
            assert(span_pairs(spans@)[k] == (spans@[k].start as int, spans@[k].end as int));
            let end: usize = spans[spans.len() - 2].end;
            Some(FsPath { bytes: self.slice(0, end) })
        } else if spans.len() == 1 {
            assert(span_pairs(spans@)[0] == (spans@[0].start as int, spans@[0].end as int));
            let end: usize = if self.is_absolute() || self.starts_with_dot() {
                1
            } else {
                0
            };
            Some(FsPath { bytes: self.slice(0, end) })
        } else if self.starts_with_dot() {
            let bytes: Vec<u8> = Vec::new();
            assert(bytes@ =~= seq![]);
            Some(FsPath { bytes })
        } else {
            None
        }
    }

    /// The path of an entry below this one; an absolute entry replaces it.
    pub fn join(&self, entry: &FsPath) -> (path: FsPath)
        ensures
            path@ == join(self@, entry@),
    {
        if entry.is_absolute() {
            return entry.clone();
        }
        let mut bytes = self.bytes.clone();
        assert(bytes@ =~= self@);
        if bytes.len() > 0 && bytes[bytes.len() - 1] != 0x2f {
            bytes.push(0x2f);
        }
        let mut rest = entry.bytes.clone();
        assert(rest@ =~= entry@);
        bytes.append(&mut rest);
        FsPath { bytes }
    }

    /// Whether the first `count` names of two paths agree.
    fn names_agree(&self, spans: &Vec<Span>, other: &FsPath, others: &Vec<Span>, count: usize) -> (
    agree: bool)
        requires
            span_pairs(spans@) == name_spans(self@),
            span_pairs(others@) == name_spans(other@),
            count <= spans@.len(),
            count <= others@.len(),
        ensures
            agree == forall|i: int|
                0 <= i < count ==> (#[trigger] self@.subrange(
                    name_spans(self@)[i].0,
                    name_spans(self@)[i].1,
                )) == other@.subrange(name_spans(other@)[i].0, name_spans(other@)[i].1),
    {
        proof {
            lemma_spans_in_order(self@, body_start(self@), body_start(self@));
            lemma_spans_in_order(other@, body_start(other@), body_start(other@));
        }
        let mut i: usize = 0;
        while i < count
            invariant
                i <= count,
                span_pairs(spans@) == name_spans(self@),
                span_pairs(others@) == name_spans(other@),
                in_order(name_spans(self@), body_start(self@), body_start(self@), self@.len() as int),
                in_order(
                    name_spans(other@),
                    body_start(other@),
                    body_start(other@),
                    other@.len() as int,
                ),
                count <= spans@.len(),
                count <= others@.len(),
                forall|j: int|
                    0 <= j < i ==> (#[trigger] self@.subrange(
                        name_spans(self@)[j].0,
                        name_spans(self@)[j].1,
                    )) == other@.subrange(name_spans(other@)[j].0, name_spans(other@)[j].1),
            decreases count - i,
        {
            assert(name_spans(self@)[i as int] == (
                spans@[i as int].start as int,
                spans@[i as int].end as int,
            ));
            assert(name_spans(other@)[i as int] == (
                others@[i as int].start as int,
                others@[i as int].end as int,
            ));
            let a = slice_subrange(self.bytes.as_slice(), spans[i].start, spans[i].end);
            let b = slice_subrange(other.bytes.as_slice(), others[i].start, others[i].end);
            if !text::same_bytes(a, b) {
                assert(self@.subrange(name_spans(self@)[i as int].0, name_spans(self@)[i as int].1)
                    != other@.subrange(
                    name_spans(other@)[i as int].0,
                    name_spans(other@)[i as int].1,
                ));
                return false;
            }
            i += 1;
        }
        true
    }

    /// Whether both paths start at the root, or with a dot, or with neither.
    fn same_leading(&self, other: &FsPath) -> (same: bool)
        ensures
            same == (leading_component(self@) == leading_component(other@)),
    {
        proof {
            let a = leading_component(self@);
            let b = leading_component(other@);
            assert(a.len() > 0 && b.len() > 0 ==> ((a == b) == (a[0] == b[0]))) by {
                if a.len() > 0 && b.len() > 0 && a[0] == b[0] {
                    assert(a =~= b);
                }
            }
        }
        self.is_absolute() == other.is_absolute() && self.starts_with_dot()
            == other.starts_with_dot()
    }

    /// Whether two paths name the same place, component by component.
    pub fn same_path(&self, other: &FsPath) -> (same: bool)
        ensures
            same == same_path(self@, other@),
    {
        let spans = self.spans();
        let others = other.spans();
        let ghost mine = components(self@);
        let ghost theirs = components(other@);
        let ghost lead = leading_component(self@);
        if !self.same_leading(other) {
            proof {
                let other_lead = leading_component(other@);
                if mine == theirs {
                    if lead.len() > 0 {
                        assert(mine[0] == lead[0]);
                        assert(theirs[0] == lead[0]);
                    }
                    if other_lead.len() > 0 {
                        assert(theirs[0] == other_lead[0]);
                    }
                    assert(lead =~= other_lead);
                }
            }
            return false;
        }
        if spans.len() != others.len() {
            return false;
        }
        let agree = self.names_agree(&spans, other, &others, spans.len());
        proof {
            lemma_components_by_names(self@, other@, spans@.len() as int);
            if agree {
                assert(mine =~= theirs);
            }
        }
        agree
    }

    /// Whether `base` is this path or one of its ancestors.
    pub fn starts_with(&self, base: &FsPath) -> (below: bool)
        ensures
            below == starts_with(self@, base@),
    {
        let spans = self.spans();
        let bases = base.spans();
        let ghost mine = components(self@);
        let ghost theirs = components(base@);
        if bases.len() == 0 && !base.is_absolute() && !base.starts_with_dot() {
            assert(theirs =~= seq![]);
            return true;
        }
        if !self.same_leading(base) {
            proof {
                let lead = leading_component(self@);
                let base_lead = leading_component(base@);
                if theirs.is_prefix_of(mine) {
                    assert(theirs[0] == mine[0]);
                    if lead.len() > 0 {
                        assert(mine[0] == lead[0]);
                    }
                    if base_lead.len() > 0 {
                        assert(theirs[0] == base_lead[0]);
                    }
                    assert(lead =~= base_lead);
                }
            }
            return false;
        }
        if bases.len() > spans.len() {
            return false;
        }
        let agree = self.names_agree(&spans, base, &bases, bases.len());
        proof {
            lemma_components_by_names(self@, base@, bases@.len() as int);
            assert(theirs.take(theirs.len() as int) =~= theirs);
        }
        agree
    }
}

/// Paths with the same leading component agree on their first components
/// exactly when they agree on their first names.
proof fn lemma_components_by_names(a: Seq<u8>, b: Seq<u8>, count: int)
    requires
        leading_component(a) == leading_component(b),
        0 <= count <= name_spans(a).len(),
        count <= name_spans(b).len(),
    ensures
        (forall|i: int|
            0 <= i < count ==> (#[trigger] a.subrange(name_spans(a)[i].0, name_spans(a)[i].1))
                == b.subrange(name_spans(b)[i].0, name_spans(b)[i].1)) == (components(a).take(
            leading_component(a).len() + count,
        ) == components(b).take(leading_component(a).len() + count)),
{
    let lead = leading_component(a).len() as int;
    let left = components(a).take(lead + count);
    let right = components(b).take(lead + count);
    if left == right {
        assert forall|i: int| 0 <= i < count implies (#[trigger] a.subrange(
            name_spans(a)[i].0,
            name_spans(a)[i].1,
        )) == b.subrange(name_spans(b)[i].0, name_spans(b)[i].1) by {
            assert(left[lead + i] == right[lead + i]);
        }
    }
    if forall|i: int|
        0 <= i < count ==> (#[trigger] a.subrange(name_spans(a)[i].0, name_spans(a)[i].1))
            == b.subrange(name_spans(b)[i].0, name_spans(b)[i].1) {
        assert forall|j: int| 0 <= j < lead + count implies left[j] == right[j] by {
            if j >= lead {
                let i = j - lead;
                assert(a.subrange(name_spans(a)[i].0, name_spans(a)[i].1) == b.subrange(
                    name_spans(b)[i].0,
                    name_spans(b)[i].1,
                ));
            }
        }
        assert(left =~= right);
    }
}

/// The empty path has no components, and a separator or a dot alone has one.
pub proof fn lemma_components_of_short_paths()
    ensures
        components(seq![]) == Seq::<Component>::empty(),
        components(seq![0x2fu8]) == seq![Component::Root],
        components(seq![0x2eu8]) == seq![Component::Current],
{
    let root = seq![0x2fu8];
    let dot = seq![0x2eu8];
    assert(name_spans(seq![]) =~= seq![]);
    assert(name_spans(root) =~= seq![]);
    assert(name_spans(dot) =~= seq![]);
    assert(components(seq![]) =~= seq![]);
    assert(components(root) =~= seq![Component::Root]);
    assert(components(dot) =~= seq![Component::Current]);
}

proof fn lemma_spans_before_separator(base: Seq<u8>, start: int, at: int)
    requires
        0 <= start <= at <= base.len(),
    ensures
        spans_from(base.push(0x2f), start, at) == spans_from(base, start, at),
    decreases base.len() - at,
{
    let whole = base.push(0x2f);
    if at >= base.len() {
        assert(whole.subrange(start, at) =~= base.subrange(start, at));
        assert(whole.subrange(at + 1, at + 1) =~= seq![]);
        assert(spans_from(whole, at + 1, at + 1) =~= seq![]);
        assert(spans_from(whole, start, at) =~= segment_spans(base, start, at));
    } else if base[at] == 0x2f {
        lemma_spans_before_separator(base, at + 1, at + 1);
        assert(whole.subrange(start, at) =~= base.subrange(start, at));
    } else {
        lemma_spans_before_separator(base, start, at + 1);
    }
}

proof fn lemma_spans_before_dot(base: Seq<u8>, start: int, at: int)
    requires
        0 <= start <= at <= base.len(),
        base.len() > 0,
        base.last() == 0x2f,
        at == base.len() ==> start == at,
    ensures
        spans_from(base.push(0x2e), start, at) == spans_from(base, start, at),
    decreases base.len() - at,
{
    let whole = base.push(0x2e);
    if at >= base.len() {
        assert(whole.subrange(at, at + 1) =~= seq![0x2eu8]);
        assert(spans_from(whole, at, at + 1) =~= seq![]);
        assert(spans_from(whole, start, at) =~= seq![]);
        assert(base.subrange(at, at) =~= seq![]);
        assert(spans_from(base, start, at) =~= seq![]);
    } else if base[at] == 0x2f {
        lemma_spans_before_dot(base, at + 1, at + 1);
        assert(whole.subrange(start, at) =~= base.subrange(start, at));
    } else {
        lemma_spans_before_dot(base, start, at + 1);
    }
}

proof fn lemma_components_of_extension(base: Seq<u8>, whole: Seq<u8>)
    requires
        base.len() > 0,
        whole.len() > base.len(),
        whole.take(base.len() as int) == base,
        body_start(whole) == body_start(base),
        leading_component(whole) == leading_component(base),
        name_spans(whole) == name_spans(base),
    ensures
        components(whole) == components(base),
{
    let spans = name_spans(base);
    lemma_spans_in_order(base, body_start(base), body_start(base));
    assert forall|i: int| 0 <= i < spans.len() implies whole.subrange(
        (#[trigger] spans[i]).0,
        spans[i].1,
    ) == base.subrange(spans[i].0, spans[i].1) by {
        assert(whole.subrange(spans[i].0, spans[i].1) =~= base.subrange(spans[i].0, spans[i].1));
    }
    assert(components(whole) =~= components(base));
}

/// A separator at the end of a path adds no component.
pub proof fn lemma_trailing_separator_adds_nothing(base: Seq<u8>)
    requires
        base.len() > 0,
    ensures
        components(base.push(0x2f)) == components(base),
{
    let whole = base.push(0x2f);
    assert(whole[0] == base[0]);
    assert(base.len() > 1 ==> whole[1] == base[1]);
    assert(whole.take(base.len() as int) =~= base);
    lemma_spans_before_separator(base, body_start(base), body_start(base));
    lemma_components_of_extension(base, whole);
}

/// A single dot behind a separator adds no component.
pub proof fn lemma_trailing_dot_adds_nothing(base: Seq<u8>)
    requires
        base.len() > 0,
        base.last() == 0x2f,
    ensures
        components(base.push(0x2e)) == components(base),
{
    let whole = base.push(0x2e);
    assert(whole[0] == base[0]);
    assert(base.len() > 1 ==> whole[1] == base[1]);
    assert(whole.take(base.len() as int) =~= base);
    lemma_spans_before_dot(base, body_start(base), body_start(base));
    lemma_components_of_extension(base, whole);
}

/// A name alone, or behind a separator, adds one component, and the name is the file
/// name of the path; a double dot stands for the parent and is no file name.
///
/// With what separators and dots add, this tells the components of every path.
pub proof fn lemma_name_adds_one_component(base: Seq<u8>, name: Seq<u8>)
    requires
        base.len() == 0 || base.last() == 0x2f,
        name.len() > 0,
        name != seq![0x2eu8],
        !name.contains(0x2f),
    ensures
        ({
            let added = if name == seq![0x2eu8, 0x2eu8] {
                Component::Parent
            } else {
                Component::Name(name)
            };
            components(base + name) == components(base).push(added)
        }),
        file_name(base + name) == (if name == seq![0x2eu8, 0x2eu8] {
            None
        } else {
            Some(name)
        }),
{
    lemma_join_components(base, name);
    assert(!is_absolute(name)) by {
        if is_absolute(name) {
            assert(name[0] == 0x2f);
        }
    }
    assert(join(base, name) =~= base + name);
}

/// The file name of a path is the name that is its last component.
pub proof fn lemma_file_name_is_the_last_component(path: Seq<u8>, name: Seq<u8>)
    ensures
        file_name(path) == Some(name) <==> components(path).len() > 0 && components(path)[components(
            path,
        ).len() - 1] == Component::Name(name),
{
}

/// Joining puts one separator between two paths, none behind an empty path or a
/// separator, and gives an absolute path as it is.
pub proof fn lemma_join_spelling(base: Seq<u8>, entry: Seq<u8>)
    ensures
        entry.len() > 0 && entry[0] == 0x2f ==> join(base, entry) == entry,
        !(entry.len() > 0 && entry[0] == 0x2f) ==> join(base, entry) == (if base.len() == 0
            || base[base.len() - 1] == 0x2f {
            base + entry
        } else {
            base + seq![0x2fu8] + entry
        }),
{
    assert(base.push(0x2f) + entry =~= base + seq![0x2fu8] + entry);
}

/// A path has a parent unless it is empty or a root. The parent is the beginning of
/// the path without its last component. Behind that it has neither a separator, unless
/// it is the root, nor a single dot.
pub proof fn lemma_parent_is_the_path_without_its_last_component(path: Seq<u8>)
    ensures
        parent(path) is None <==> components(path).len() == 0 || components(path) == seq![
            Component::Root,
        ],
        parent(path) matches Some(up) ==> up.len() < path.len() && up == path.take(up.len() as int)
            && components(up) == components(path).take(components(path).len() - 1) && (up.len() > 1
            ==> up[up.len() - 1] != 0x2f && !(up[up.len() - 1] == 0x2e && up[up.len() - 2]
            == 0x2f)),
{
    let spans = name_spans(path);
    let start = body_start(path);
    lemma_spans_in_order(path, start, start);
    lemma_spans_without_separators(path, start, start);
    assert(components(path).len() == leading_component(path).len() + spans.len());
    match parent(path) {
        Some(up) => {
            lemma_parent_is_shorter(path);
            lemma_parent_components(path);
            assert(up =~= path.take(up.len() as int));
            assert(components(path).drop_last() =~= components(path).take(
                components(path).len() - 1,
            ));
            if spans.len() >= 2 {
                let last = spans[spans.len() - 2];
                assert(last.0 <= last.1 - 1 < last.1);
                assert(path[last.1 - 1] != 0x2f);
                lemma_spans_significant(path, start, start);
                if up.len() > 1 && up[up.len() - 1] == 0x2e && up[up.len() - 2] == 0x2f {
                    assert(path[last.1 - 2] == 0x2f);
                    assert(last.0 == last.1 - 1);
                    assert(path.subrange(last.0, last.1) =~= seq![0x2eu8]);
                }
            }
            if components(path) == seq![Component::Root] {
                if spans.len() > 0 {
                    assert(components(path)[components(path).len() - 1] == segment_component(
                        path.subrange(spans[spans.len() - 1].0, spans[spans.len() - 1].1),
                    ));
                } else {
                    assert(components(path)[0] == leading_component(path)[0]);
                }
            }
        },
        None => {
            assert(components(path) =~= leading_component(path));
        },
    }
}

/// Two spellings are the same path exactly if they have the same components, and one
/// path lies below another exactly if its components begin with those of the other.
pub proof fn lemma_paths_go_by_their_components(a: Seq<u8>, b: Seq<u8>)
    ensures
        same_path(a, b) <==> components(a) == components(b),
        starts_with(a, b) <==> components(b).len() <= components(a).len() && components(a).take(
            components(b).len() as int,
        ) == components(b),
{
    if components(b).is_prefix_of(components(a)) {
        assert(components(a).take(components(b).len() as int) =~= components(b));
    }
    if components(b).len() <= components(a).len() && components(a).take(components(b).len() as int)
        == components(b) {
        assert(components(b) =~= components(a).subrange(0, components(b).len() as int));
    }
}

/// The path itself, or what comes of taking the parent this many times.
pub open spec fn above(path: Seq<u8>, steps: nat) -> Option<Seq<u8>>
    decreases steps,
{
    if steps == 0 {
        Some(path)
    } else {
        match above(path, (steps - 1) as nat) {
            Some(below) => parent(below),
            None => None,
        }
    }
}

proof fn lemma_above_the_parent(path: Seq<u8>, steps: nat)
    ensures
        above(path, steps + 1) == (match parent(path) {
            Some(up) => above(up, steps),
            None => None,
        }),
    decreases steps,
{
    reveal_with_fuel(above, 2);
    if steps > 0 {
        lemma_above_the_parent(path, (steps - 1) as nat);
    }
}

/// The ancestors of a path are the path, its parent, the parent of that, and so on,
/// all the way up to one that has no parent.
pub proof fn lemma_ancestors_reach_all_the_way_up(path: Seq<u8>, steps: nat)
    ensures
        ancestors(path).len() > 0,
        ancestors(path)[0] == path,
        parent(ancestors(path)[ancestors(path).len() - 1]) is None,
        above(path, steps) is Some <==> steps < ancestors(path).len(),
        steps < ancestors(path).len() ==> above(path, steps) == Some(ancestors(path)[steps as int]),
    decreases path.len(),
{
    match parent(path) {
        Some(up) => {
            lemma_parent_is_shorter(path);
            lemma_ancestors_reach_all_the_way_up(up, 0);
            assert(ancestors(path) =~= seq![path] + ancestors(up));
            assert(ancestors(path)[ancestors(path).len() - 1] == ancestors(up)[ancestors(up).len()
                - 1]);
            if steps > 0 {
                lemma_above_the_parent(path, (steps - 1) as nat);
                lemma_ancestors_reach_all_the_way_up(up, (steps - 1) as nat);
                if steps < ancestors(path).len() {
                    assert(ancestors(path)[steps as int] == ancestors(up)[steps - 1]);
                }
            }
        },
        None => {
            if steps > 0 {
                lemma_above_the_parent(path, (steps - 1) as nat);
            }
        },
    }
}

/// A list of paths is told path by path, and an optional path or name as it is.
pub proof fn lemma_paths_are_told_as_they_are(
    paths: Seq<FsPath>,
    path: Option<FsPath>,
    name: Option<Vec<u8>>,
)
    ensures
        path_list(paths).len() == paths.len(),
        forall|i: int| 0 <= i < paths.len() ==> #[trigger] path_list(paths)[i] == paths[i]@,
        path matches Some(path) ==> path_option(Some(path)) == Some(path@),
        path is None ==> path_option(path) is None,
        name matches Some(name) ==> bytes_option(Some(name)) == Some(name@),
        name is None ==> bytes_option(name) is None,
{
}

} // verus!
