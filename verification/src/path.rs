//! Paths as texts with `/` between their components.

use vstd::prelude::*;

use crate::text::{from_chars, same_text, split, to_chars};

verus! {

/// The segments of a path that name something: empty ones are dropped, and so
/// is `.` anywhere but at the start.
pub open spec fn named_segments(segments: Seq<Seq<char>>) -> Seq<Seq<char>>
    decreases segments.len(),
{
    if segments.len() == 0 {
        seq![]
    } else {
        let before = named_segments(segments.drop_last());
        let last = segments.last();
        if last.len() == 0 || (last == seq!['.'] && segments.len() > 1) {
            before
        } else {
            before.push(last)
        }
    }
}

/// Whether a path starts at the root.
pub open spec fn is_absolute_path(path: Seq<char>) -> bool {
    path.len() > 0 && path[0] == '/'
}

/// The components of a path. The root is the component `/`.
pub open spec fn path_components(path: Seq<char>) -> Seq<Seq<char>> {
    let named = named_segments(crate::text::pieces(path, '/'));
    if is_absolute_path(path) {
        seq![seq!['/']] + named
    } else {
        named
    }
}

/// The components of `path`.
pub fn components(path: &str) -> (r: Vec<String>)
    ensures
        crate::text::views(r@) == path_components(path@),
{
    let chars = to_chars(path);
    let segments = split(path, '/');
    let mut out: Vec<String> = Vec::new();
    let ghost start: Seq<Seq<char>> = if is_absolute_path(path@) {
        seq![seq!['/']]
    } else {
        seq![]
    };
    if chars.len() > 0 && chars[0] == '/' {
        out.push(from_chars(&chars, 0, 1));
        proof {
            assert(out@[0]@ =~= seq!['/']);
        }
    }
    proof {
        assert(crate::text::views(out@) =~= start);
        assert(start + named_segments(seq![]) =~= start);
        assert(crate::text::views(segments@).take(0) =~= seq![]);
    }
    let mut i: usize = 0;
    while i < segments.len()
        invariant
            i <= segments@.len(),
            crate::text::views(out@) == start + named_segments(
                crate::text::views(segments@).take(i as int),
            ),
        decreases segments@.len() - i,
    {
        let segment = to_chars(segments[i].as_str());
        let ghost out0 = out@;
        let ghost seen = crate::text::views(segments@).take(i + 1);
        proof {
            assert(seen.drop_last() =~= crate::text::views(segments@).take(i as int));
            assert(seen.last() == segment@);
            if segment@.len() == 1 && segment@[0] == '.' {
                assert(segment@ =~= seq!['.']);
            }
        }
        let dropped = segment.len() == 0 || (segment.len() == 1 && segment[0] == '.' && i > 0);
        if !dropped {
            out.push(from_chars(&segment, 0, segment.len()));
            proof {
                assert(segment@.subrange(0, segment@.len() as int) =~= segment@);
                assert(crate::text::views(out@) =~= crate::text::views(out0).push(segment@));
                assert(start + named_segments(seen) =~= (start + named_segments(
                    seen.drop_last(),
                )).push(segment@));
            }
        }
        i = i + 1;
    }
    proof {
        assert(crate::text::views(segments@).take(segments@.len() as int) =~= crate::text::views(
            segments@,
        ));
    }
    out
}

/// The name of the file that a path ends in, where it ends in one.
pub open spec fn path_file_name(path: Seq<char>) -> Option<Seq<char>> {
    let parts = path_components(path);
    if parts.len() == 0 || parts.last() == seq!['/'] || parts.last() == seq!['.'] || parts.last()
        == seq!['.', '.'] {
        None
    } else {
        Some(parts.last())
    }
}

/// Where the last dot of `name` stands, or `-1`.
pub open spec fn last_dot(name: Seq<char>) -> int
    decreases name.len(),
{
    if name.len() == 0 {
        -1
    } else if name.last() == '.' {
        name.len() - 1
    } else {
        last_dot(name.drop_last())
    }
}

/// The part of the file name behind its last dot, where something stands before that dot.
pub open spec fn path_extension(path: Seq<char>) -> Option<Seq<char>> {
    match path_file_name(path) {
        Some(name) => if last_dot(name) > 0 {
            Some(name.skip(last_dot(name) + 1))
        } else {
            None
        },
        None => None,
    }
}

/// The name of the file that `path` ends in.
pub fn file_name(path: &str) -> (r: Option<String>)
    ensures
        r is Some == path_file_name(path@) is Some,
        r is Some ==> r->0@ == path_file_name(path@)->0,
{
    let mut parts = components(path);
    if parts.len() == 0 {
        return None;
    }
    let last = &parts[parts.len() - 1];
    proof {
        reveal_strlit("/");
        reveal_strlit(".");
        reveal_strlit("..");
        assert("/"@ =~= seq!['/']);
        assert("."@ =~= seq!['.']);
        assert(".."@ =~= seq!['.', '.']);
        assert(crate::text::views(parts@).last() == last@);
    }
    if same_text(last.as_str(), "/") || same_text(last.as_str(), ".") || same_text(
        last.as_str(),
        "..",
    ) {
        return None;
    }
    parts.pop()
}

/// The extension of `path`.
pub fn extension(path: &str) -> (r: Option<String>)
    ensures
        r is Some == path_extension(path@) is Some,
        r is Some ==> r->0@ == path_extension(path@)->0,
{
    match file_name(path) {
        None => None,
        Some(name) => {
            let chars = to_chars(name.as_str());
            let mut end: usize = chars.len();
            proof {
                assert(chars@.take(chars@.len() as int) =~= chars@);
            }
            while end > 0
                invariant
                    end <= chars@.len(),
                    chars@ == name@,
                    last_dot(chars@) == last_dot(chars@.take(end as int)),
                    Some(name@) == path_file_name(path@),
                decreases end,
            {
                proof {
                    assert(chars@.take(end as int).drop_last() =~= chars@.take(end - 1));
                }
                if chars[end - 1] == '.' {
                    if end == 1 {
                        return None;
                    }
                    proof {
                        assert(chars@.subrange(end as int, chars@.len() as int) =~= name@.skip(
                            end as int,
                        ));
                    }
                    return Some(from_chars(&chars, end, chars.len()));
                }
                end = end - 1;
            }
            None
        },
    }
}

/// Whether two paths name the same thing, written with other separators perhaps.
pub open spec fn same_path(a: Seq<char>, b: Seq<char>) -> bool {
    path_components(a) == path_components(b)
}

/// Whether `a` and `b` have the same components.
pub fn paths_equal(a: &str, b: &str) -> (r: bool)
    ensures
        r == same_path(a@, b@),
{
    let x = components(a);
    let y = components(b);
    if x.len() != y.len() {
        proof {
            assert(crate::text::views(x@).len() != crate::text::views(y@).len());
        }
        return false;
    }
    let mut i: usize = 0;
    while i < x.len()
        invariant
            i <= x@.len(),
            x@.len() == y@.len(),
            crate::text::views(x@) == path_components(a@),
            crate::text::views(y@) == path_components(b@),
            forall|k: int| 0 <= k < i ==> x@[k]@ == y@[k]@,
        decreases x@.len() - i,
    {
        if !same_text(x[i].as_str(), y[i].as_str()) {
            proof {
                assert(crate::text::views(x@)[i as int] != crate::text::views(y@)[i as int]);
            }
            return false;
        }
        i = i + 1;
    }
    proof {
        assert(crate::text::views(x@) =~= crate::text::views(y@));
    }
    true
}

/// How components of different kinds sort: the root, `.`, `..`, then names.
pub open spec fn component_rank(component: Seq<char>) -> u64 {
    if component == seq!['/'] {
        1
    } else if component == seq!['.'] {
        2
    } else if component == seq!['.', '.'] {
        3
    } else {
        4
    }
}

/// A component as numbers that sort as components do: its rank, its characters
/// by code point, and an end that sorts before any character.
pub open spec fn component_key(component: Seq<char>) -> Seq<u64> {
    seq![component_rank(component)] + component.map_values(|c: char| ((c as u32) + 1) as u64) + seq![
        0u64,
    ]
}

/// The keys of components, one behind the other.
pub open spec fn components_key(parts: Seq<Seq<char>>) -> Seq<u64>
    decreases parts.len(),
{
    if parts.len() == 0 {
        seq![]
    } else {
        components_key(parts.drop_last()) + component_key(parts.last())
    }
}

/// The key by which paths sort: component by component.
pub open spec fn path_key(path: Seq<char>) -> Seq<u64> {
    components_key(path_components(path))
}

/// The sort key of `path`.
pub fn sort_key(path: &str) -> (r: Vec<u64>)
    ensures
        r@ == path_key(path@),
{
    let parts = components(path);
    let mut out: Vec<u64> = Vec::new();
    let mut i: usize = 0;
    proof {
        reveal_strlit("/");
        reveal_strlit(".");
        reveal_strlit("..");
        assert("/"@ =~= seq!['/']);
        assert("."@ =~= seq!['.']);
        assert(".."@ =~= seq!['.', '.']);
        assert(crate::text::views(parts@).take(0) =~= seq![]);
    }
    while i < parts.len()
        invariant
            i <= parts@.len(),
            out@ == components_key(crate::text::views(parts@).take(i as int)),
            "/"@ == seq!['/'],
            "."@ == seq!['.'],
            ".."@ == seq!['.', '.'],
        decreases parts@.len() - i,
    {
        let part = &parts[i];
        let ghost before = out@;
        let ghost seen = crate::text::views(parts@).take(i + 1);
        proof {
            assert(seen.drop_last() =~= crate::text::views(parts@).take(i as int));
            assert(seen.last() == part@);
        }
        let rank: u64 = if same_text(part.as_str(), "/") {
            1
        } else if same_text(part.as_str(), ".") {
            2
        } else if same_text(part.as_str(), "..") {
            3
        } else {
            4
        };
        out.push(rank);
        let ghost ranked = out@;
        for c in it: part.as_str().chars()
            invariant
                it.seq() == part@,
                out@ == ranked + part@.take(it.index() as int).map_values(
                    |c: char| ((c as u32) + 1) as u64,
                ),
        {
            proof {
                vstd::utf8::char_is_scalar(c);
            }
            out.push((c as u32 + 1) as u64);
            proof {
                assert(part@.take(it.index() as int + 1) =~= part@.take(it.index() as int).push(c));
                assert(out@ =~= ranked + part@.take(it.index() as int + 1).map_values(
                    |c: char| ((c as u32) + 1) as u64,
                ));
            }
        }
        out.push(0);
        proof {
            assert(part@.take(part@.len() as int) =~= part@);
            assert(out@ =~= before + component_key(part@));
        }
        i = i + 1;
    }
    proof {
        assert(crate::text::views(parts@).take(parts@.len() as int) =~= crate::text::views(parts@));
    }
    out
}

proof fn lemma_component_key_injective(a: Seq<char>, b: Seq<char>, s: Seq<u64>, t: Seq<u64>)
    requires
        component_key(a) + s == component_key(b) + t,
    ensures
        a == b,
        s == t,
{
    let x = component_key(a) + s;
    let y = component_key(b) + t;
    assert(x.len() == y.len());
    assert forall|i: int| 0 <= i < a.len() && i < b.len() implies a[i] == b[i] by {
        vstd::utf8::char_is_scalar(a[i]);
        vstd::utf8::char_is_scalar(b[i]);
        assert(x[i + 1] == ((a[i] as u32) + 1) as u64);
        assert(y[i + 1] == ((b[i] as u32) + 1) as u64);
        vstd::utf8::char_u32_cast(a[i], a[i] as u32);
        vstd::utf8::char_u32_cast(b[i], a[i] as u32);
    }
    if a.len() < b.len() {
        assert(x[a.len() as int + 1] == 0);
        assert(y[a.len() as int + 1] == ((b[a.len() as int] as u32) + 1) as u64);
        vstd::utf8::char_is_scalar(b[a.len() as int]);
    }
    if b.len() < a.len() {
        assert(y[b.len() as int + 1] == 0);
        assert(x[b.len() as int + 1] == ((a[b.len() as int] as u32) + 1) as u64);
        vstd::utf8::char_is_scalar(a[b.len() as int]);
    }
    assert(a =~= b);
    assert(s =~= x.skip(component_key(a).len() as int));
    assert(t =~= y.skip(component_key(b).len() as int));
}

proof fn lemma_components_key_front(parts: Seq<Seq<char>>)
    requires
        parts.len() > 0,
    ensures
        components_key(parts) == component_key(parts[0]) + components_key(parts.skip(1)),
    decreases parts.len(),
{
    if parts.len() == 1 {
        assert(parts.drop_last() =~= seq![]);
        assert(parts.skip(1) =~= seq![]);
        assert(components_key(parts) =~= component_key(parts[0]) + components_key(parts.skip(1)));
    } else {
        lemma_components_key_front(parts.drop_last());
        assert(parts.drop_last().skip(1) =~= parts.skip(1).drop_last());
        assert(components_key(parts) =~= component_key(parts[0]) + components_key(parts.skip(1)));
    }
}

proof fn lemma_components_key_injective(a: Seq<Seq<char>>, b: Seq<Seq<char>>)
    requires
        components_key(a) == components_key(b),
    ensures
        a == b,
    decreases a.len(),
{
    if a.len() > 0 {
        lemma_components_key_front(a);
    }
    if b.len() > 0 {
        lemma_components_key_front(b);
    }
    if a.len() > 0 && b.len() > 0 {
        lemma_component_key_injective(
            a[0],
            b[0],
            components_key(a.skip(1)),
            components_key(b.skip(1)),
        );
        lemma_components_key_injective(a.skip(1), b.skip(1));
        assert(a =~= seq![a[0]] + a.skip(1));
        assert(b =~= seq![b[0]] + b.skip(1));
    } else {
        assert(component_key(a[0]).len() > 0);
        assert(component_key(b[0]).len() > 0);
        assert(a =~= b);
    }
}

/// Two paths have the same sort key just where they name the same thing.
pub proof fn law_path_key_tells_paths_apart(a: Seq<char>, b: Seq<char>)
    ensures
        path_key(a) == path_key(b) <==> same_path(a, b),
{
    if path_key(a) == path_key(b) {
        lemma_components_key_injective(path_components(a), path_components(b));
    }
}

/// Whether two components lists start with the same two components.
pub open spec fn spec_shares_root(a: Seq<char>, b: Seq<char>) -> bool {
    let x = path_components(a);
    let y = path_components(b);
    x.len() >= 2 && y.len() >= 2 && x[0] == y[0] && x[1] == y[1]
}

/// Whether `a` and `b` have at least two components each and share the first two.
pub fn shares_root(a: &str, b: &str) -> (r: bool)
    ensures
        r == spec_shares_root(a@, b@),
{
    let x = components(a);
    let y = components(b);
    proof {
        assert(crate::text::views(x@).len() == x@.len());
        assert(crate::text::views(y@).len() == y@.len());
    }
    if x.len() < 2 || y.len() < 2 {
        return false;
    }
    proof {
        assert(crate::text::views(x@)[0] == x@[0]@ && crate::text::views(x@)[1] == x@[1]@);
        assert(crate::text::views(y@)[0] == y@[0]@ && crate::text::views(y@)[1] == y@[1]@);
    }
    same_text(x[0].as_str(), y[0].as_str()) && same_text(x[1].as_str(), y[1].as_str())
}

// --- Laws ---

/// Whether a text can be a component: it is not empty and has no separator.
pub open spec fn is_segment(name: Seq<char>) -> bool {
    name.len() > 0 && forall|i: int| 0 <= i < name.len() ==> #[trigger] name[i] != '/'
}

/// A name is a path of one component, below the root or a directory one more. A separator or a
/// dot at the end adds nothing.
pub proof fn law_a_name_is_one_more_component(dir: Seq<char>, name: Seq<char>)
    requires
        is_segment(name),
    ensures
        path_components(name) == seq![name],
        name != seq!['.'] ==> path_components(seq!['/'] + name) == seq![seq!['/'], name],
        dir.len() > 0 && name != seq!['.'] ==> path_components(dir.push('/') + name)
            == path_components(dir).push(name),
        dir.len() > 0 ==> path_components(dir.push('/')) == path_components(dir),
        dir.len() > 0 ==> path_components(dir.push('/').push('.')) == path_components(dir),
        path_components(seq!['/']) == seq![seq!['/']],
        path_components(Seq::empty()) == Seq::<Seq<char>>::empty(),
{
    let none = Seq::<char>::empty();
    let dot = seq!['.'];
    crate::text::law_pieces_lie_between_separators(dir, name, '/');
    crate::text::law_pieces_lie_between_separators(dir, none, '/');
    crate::text::law_pieces_lie_between_separators(dir, dot, '/');
    crate::text::law_pieces_lie_between_separators(none, name, '/');
    crate::text::law_pieces_lie_between_separators(none, none, '/');
    assert(none.push('/') + name =~= seq!['/'] + name);
    assert(none.push('/') + none =~= seq!['/']);
    assert(dir.push('/') + none =~= dir.push('/'));
    assert(dir.push('/') + dot =~= dir.push('/').push('.'));
    let parts = crate::text::pieces(dir, '/');
    lemma_named_push(Seq::<Seq<char>>::empty(), none);
    lemma_named_push(Seq::<Seq<char>>::empty(), name);
    lemma_named_push(seq![none], name);
    lemma_named_push(seq![none], none);
    assert(Seq::<Seq<char>>::empty().push(none) =~= seq![none]);
    assert(Seq::<Seq<char>>::empty().push(name) =~= seq![name]);
    assert(named_segments(seq![none]) =~= Seq::<Seq<char>>::empty());
    assert(named_segments(seq![name]) =~= seq![name]);
    assert(path_components(name) =~= seq![name]);
    if name != dot {
        assert(path_components(seq!['/'] + name) =~= seq![seq!['/'], name]);
    }
    assert(path_components(seq!['/']) =~= seq![seq!['/']]);
    assert(path_components(none) =~= Seq::<Seq<char>>::empty());
    if dir.len() > 0 {
        lemma_pieces_are_some(dir, '/');
        lemma_named_push(parts, name);
        lemma_named_push(parts, none);
        lemma_named_push(parts, dot);
        assert(dir.push('/')[0] == dir[0]);
        assert((dir.push('/') + name)[0] == dir[0]);
        assert(dir.push('/').push('.')[0] == dir[0]);
        if name != dot {
            assert(path_components(dir.push('/') + name) =~= path_components(dir).push(name));
        }
        assert(path_components(dir.push('/')) =~= path_components(dir));
        assert(path_components(dir.push('/').push('.')) =~= path_components(dir));
    }
}

proof fn lemma_named_push(parts: Seq<Seq<char>>, last: Seq<char>)
    ensures
        named_segments(parts.push(last)) == if last.len() == 0 || (last == seq!['.'] && parts.len()
            > 0) {
            named_segments(parts)
        } else {
            named_segments(parts).push(last)
        },
{
    assert(parts.push(last).drop_last() =~= parts);
    assert(parts.push(last).last() == last);
}

proof fn lemma_pieces_are_some(s: Seq<char>, sep: char)
    ensures
        crate::text::pieces(s, sep).len() > 0,
    decreases s.len(),
{
    if s.len() > 0 {
        lemma_pieces_are_some(s.drop_last(), sep);
    }
}

/// The file name is what stands behind the last separator, unless that is a dot or two.
pub proof fn law_the_file_name_is_the_last_segment(dir: Seq<char>, name: Seq<char>)
    requires
        is_segment(name),
    ensures
        name != seq!['.'] && name != seq!['.', '.'] ==> path_file_name(name) == Some(name),
        name != seq!['.'] && name != seq!['.', '.'] ==> path_file_name(dir.push('/') + name) == Some(
            name,
        ),
        path_file_name(seq!['.', '.']) is None,
        path_file_name(dir.push('/') + seq!['.', '.']) is None,
        path_file_name(seq!['/']) is None,
{
    let up = seq!['.', '.'];
    law_a_name_is_one_more_component(dir, name);
    law_a_name_is_one_more_component(dir, up);
    assert(up.len() == 2 && seq!['.'].len() == 1);
    assert(name[0] != '/');
    assert(seq!['/'][0] == '/');
    if dir.len() == 0 {
        assert(dir.push('/') + name =~= seq!['/'] + name);
        assert(dir.push('/') + up =~= seq!['/'] + up);
    }
}

proof fn lemma_last_dot(stem: Seq<char>, ext: Seq<char>)
    requires
        forall|i: int| 0 <= i < ext.len() ==> #[trigger] ext[i] != '.',
    ensures
        last_dot(stem.push('.') + ext) == stem.len(),
        last_dot(ext) == -1,
    decreases ext.len(),
{
    let name = stem.push('.') + ext;
    if ext.len() == 0 {
        assert(name =~= stem.push('.'));
    } else {
        let before = ext.drop_last();
        assert forall|i: int| 0 <= i < before.len() implies #[trigger] before[i] != '.' by {
            assert(before[i] == ext[i]);
        }
        assert(ext[ext.len() - 1] != '.');
        lemma_last_dot(stem, before);
        assert(name.drop_last() =~= stem.push('.') + before);
    }
}

/// The extension is what stands behind the last dot of the file name, where something stands
/// before that dot. A name without a dot, or with none but at its start, has no extension.
pub proof fn law_the_extension_is_behind_the_last_dot(
    dir: Seq<char>,
    stem: Seq<char>,
    ext: Seq<char>,
)
    requires
        forall|i: int| 0 <= i < stem.len() ==> #[trigger] stem[i] != '/',
        forall|i: int| 0 <= i < ext.len() ==> #[trigger] ext[i] != '/' && ext[i] != '.',
        stem.push('.') + ext != seq!['.', '.'],
    ensures
        stem.len() > 0 ==> path_extension(stem.push('.') + ext) == Some(ext),
        stem.len() > 0 ==> path_extension(dir.push('/') + (stem.push('.') + ext)) == Some(ext),
        ext.len() > 0 ==> path_extension(ext) is None,
        ext.len() > 0 ==> path_extension(dir.push('/') + ext) is None,
        ext.len() > 0 ==> path_extension(seq!['.'] + ext) is None,
        ext.len() > 0 ==> path_extension(dir.push('/') + (seq!['.'] + ext)) is None,
{
    lemma_last_dot(stem, ext);
    lemma_last_dot(Seq::<char>::empty(), ext);
    let name = stem.push('.') + ext;
    assert forall|i: int| 0 <= i < name.len() implies #[trigger] name[i] != '/' by {
        if i > stem.len() {
            assert(name[i] == ext[i - stem.len() - 1]);
        } else if i < stem.len() {
            assert(name[i] == stem[i]);
        }
    }
    assert(is_segment(name));
    law_the_file_name_is_the_last_segment(dir, name);
    if stem.len() > 0 {
        if name == seq!['.'] {
            assert(name.len() == 1);
        }
        assert(name.skip(stem.len() as int + 1) =~= ext);
    }
    if ext.len() > 0 {
        assert(is_segment(ext));
        assert(ext[0] != '.');
        law_the_file_name_is_the_last_segment(dir, ext);
        let hidden = seq!['.'] + ext;
        assert(Seq::<char>::empty().push('.') + ext =~= hidden);
        assert(hidden[1] == ext[0]);
        assert forall|i: int| 0 <= i < hidden.len() implies #[trigger] hidden[i] != '/' by {
            if i > 0 {
                assert(hidden[i] == ext[i - 1]);
            }
        }
        law_the_file_name_is_the_last_segment(dir, hidden);
    }
}

/// Two paths are the same just where they have the same components.
pub proof fn law_paths_are_compared_by_components(a: Seq<char>, b: Seq<char>)
    ensures
        same_path(a, b) <==> path_components(a) == path_components(b),
        spec_shares_root(a, b) <==> path_components(a).len() >= 2 && path_components(b).len() >= 2
            && path_components(a).take(2) == path_components(b).take(2),
{
    let x = path_components(a);
    let y = path_components(b);
    if x.len() >= 2 && y.len() >= 2 {
        if x.take(2) == y.take(2) {
            assert(x.take(2)[0] == y.take(2)[0] && x.take(2)[1] == y.take(2)[1]);
        }
        if x[0] == y[0] && x[1] == y[1] {
            assert(x.take(2) =~= y.take(2));
        }
    }
}

proof fn lemma_components_key_split(parts: Seq<Seq<char>>, k: int) -> (rest: Seq<u64>)
    requires
        0 <= k < parts.len(),
    ensures
        components_key(parts) == components_key(parts.take(k)) + (component_key(parts[k]) + rest),
    decreases parts.len(),
{
    if k == parts.len() - 1 {
        let rest = Seq::<u64>::empty();
        assert(parts.take(k) =~= parts.drop_last());
        assert(component_key(parts[k]) + rest =~= component_key(parts[k]));
        rest
    } else {
        let before = parts.drop_last();
        let inner = lemma_components_key_split(before, k);
        let rest = inner + component_key(parts.last());
        assert(before.take(k) =~= parts.take(k));
        assert(components_key(parts) =~= components_key(parts.take(k)) + (component_key(parts[k])
            + rest));
        rest
    }
}

/// Paths sort by their first component that differs, and that by its first character that
/// differs; a component that starts another one comes first.
pub proof fn law_paths_sort_component_by_component(
    a: Seq<char>,
    b: Seq<char>,
    k: int,
    m: int,
)
    requires
        0 <= k < path_components(a).len(),
        k < path_components(b).len(),
        path_components(a).take(k) == path_components(b).take(k),
        ({
            let x = path_components(a)[k];
            let y = path_components(b)[k];
            &&& x != seq!['/'] && x != seq!['.'] && x != seq!['.', '.']
            &&& y != seq!['/'] && y != seq!['.'] && y != seq!['.', '.']
            &&& 0 <= m <= x.len()
            &&& m < y.len()
            &&& x.take(m) == y.take(m)
            &&& m == x.len() || (x[m] as u32) < y[m] as u32
        }),
    ensures
        crate::order::lex_le(path_key(a), path_key(b)),
        !crate::order::lex_le(path_key(b), path_key(a)),
{
    let p = path_components(a);
    let q = path_components(b);
    let x = p[k];
    let y = q[k];
    let s = lemma_components_key_split(p, k);
    let t = lemma_components_key_split(q, k);
    let common = components_key(p.take(k));
    let u = component_key(x) + s;
    let v = component_key(y) + t;
    crate::order::law_a_common_start_does_not_count(common, u, v);
    crate::order::law_a_common_start_does_not_count(common, v, u);
    assert forall|i: int| 0 <= i < m + 1 implies #[trigger] u[i] == v[i] by {
        if i > 0 {
            assert(x.take(m)[i - 1] == y.take(m)[i - 1]);
            assert(u[i] == ((x[i - 1] as u32) + 1) as u64);
            assert(v[i] == ((y[i - 1] as u32) + 1) as u64);
        }
    }
    assert(v[m + 1] == ((y[m] as u32) + 1) as u64);
    if m == x.len() {
        assert(u[m + 1] == 0);
    } else {
        assert(u[m + 1] == ((x[m] as u32) + 1) as u64);
    }
    crate::order::law_the_first_difference_decides(u, v, m + 1);
    crate::order::law_the_first_difference_decides(v, u, m + 1);
}

/// A directory sorts before what is in it.
pub proof fn law_a_directory_sorts_before_its_files(a: Seq<char>, b: Seq<char>)
    requires
        path_components(a).len() < path_components(b).len(),
        path_components(a) == path_components(b).take(path_components(a).len() as int),
    ensures
        crate::order::lex_le(path_key(a), path_key(b)),
        !crate::order::lex_le(path_key(b), path_key(a)),
{
    let p = path_components(a);
    let q = path_components(b);
    let k = p.len() as int;
    let rest = lemma_components_key_split(q, k);
    let tail = component_key(q[k]) + rest;
    let none = Seq::<u64>::empty();
    assert(tail.len() > 0);
    assert(path_key(a) =~= path_key(a) + none);
    crate::order::law_a_common_start_does_not_count(path_key(a), none, tail);
    crate::order::law_a_common_start_does_not_count(path_key(a), tail, none);
}

/// Where two paths part, the root sorts before `.`, that before `..`, and that before names.
pub proof fn law_special_components_sort_first(a: Seq<char>, b: Seq<char>, k: int)
    requires
        0 <= k < path_components(a).len(),
        k < path_components(b).len(),
        path_components(a).take(k) == path_components(b).take(k),
        ({
            let x = path_components(a)[k];
            let y = path_components(b)[k];
            ||| x == seq!['/'] && y != seq!['/']
            ||| x == seq!['.'] && y != seq!['/'] && y != seq!['.']
            ||| x == seq!['.', '.'] && y != seq!['/'] && y != seq!['.'] && y != seq!['.', '.']
        }),
    ensures
        crate::order::lex_le(path_key(a), path_key(b)),
        !crate::order::lex_le(path_key(b), path_key(a)),
{
    let p = path_components(a);
    let q = path_components(b);
    let s = lemma_components_key_split(p, k);
    let t = lemma_components_key_split(q, k);
    let common = components_key(p.take(k));
    let u = component_key(p[k]) + s;
    let v = component_key(q[k]) + t;
    crate::order::law_a_common_start_does_not_count(common, u, v);
    crate::order::law_a_common_start_does_not_count(common, v, u);
    assert(seq!['.'][0] != seq!['/'][0]);
    assert(seq!['.', '.'].len() != seq!['.'].len());
    assert(seq!['.', '.'].len() != seq!['/'].len());
    assert(u[0] < v[0]);
}

} // verus!
