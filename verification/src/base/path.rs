//! Unix paths as text: their components, and the short label of a checkpoint.
use crate::base::text;
use vstd::prelude::*;
use vstd::string::*;

verus! {

/// A path cut at its slashes, from the left.
pub open spec fn cut_at_slashes(s: Seq<char>) -> Seq<Seq<char>>
    decreases s.len(),
{
    if s.len() == 0 {
        seq![Seq::<char>::empty()]
    } else {
        let before = cut_at_slashes(s.drop_last());
        if s.last() == '/' {
            before.push(Seq::empty())
        } else {
            before.update(before.len() - 1, before.last().push(s.last()))
        }
    }
}

/// Whether a piece between slashes is a component of the path: empty pieces are
/// not, and `.` is one only where it begins a relative path.
pub open spec fn is_component(piece: Seq<char>, i: int) -> bool {
    piece.len() > 0 && (i == 0 || piece != seq!['.'])
}

/// The components among the first `k` pieces.
pub open spec fn components_upto(pieces: Seq<Seq<char>>, k: int) -> Seq<Seq<char>>
    decreases k,
{
    if k <= 0 {
        Seq::empty()
    } else {
        let before = components_upto(pieces, k - 1);
        if is_component(pieces[k - 1], k - 1) {
            before.push(pieces[k - 1])
        } else {
            before
        }
    }
}

/// The components of a path. A leading slash is not counted among them.
pub open spec fn components(path: Seq<char>) -> Seq<Seq<char>> {
    let pieces = cut_at_slashes(path);
    components_upto(pieces, pieces.len() as int)
}

/// Whether a component is a name, not `.` or `..`.
pub open spec fn is_name(part: Seq<char>) -> bool {
    part != seq!['.'] && part != seq!['.', '.']
}

/// The position of the last `.` in `s`, or -1.
pub open spec fn last_dot(s: Seq<char>) -> int
    decreases s.len(),
{
    if s.len() == 0 {
        -1
    } else if s.last() == '.' {
        s.len() - 1
    } else {
        last_dot(s.drop_last())
    }
}

/// A file name without its extension. A leading dot begins no extension.
pub open spec fn stem(name: Seq<char>) -> Seq<char> {
    let d = last_dot(name);
    if d <= 0 {
        name
    } else {
        name.take(d)
    }
}

/// What a checkpoint path is called: the name of its directory, else the stem
/// of its file name, else the path itself.
pub open spec fn path_name(path: Seq<char>) -> Seq<char> {
    let parts = components(path);
    if parts.len() >= 2 && is_name(parts[parts.len() - 2]) {
        parts[parts.len() - 2]
    } else if parts.len() >= 1 && is_name(parts.last()) {
        stem(parts.last())
    } else {
        path
    }
}

/// The first `-` or `_` of `s` from position `i` on, or the length of `s`.
pub open spec fn first_separator(s: Seq<char>, i: int) -> int
    decreases s.len() - i,
{
    if i >= s.len() || s[i] == '-' || s[i] == '_' {
        i
    } else {
        first_separator(s, i + 1)
    }
}

/// Whether `head` is `phase` followed by ASCII digits only.
pub open spec fn is_phase_head(head: Seq<char>) -> bool {
    &&& head.len() >= 5
    &&& head.take(5) == seq!['p', 'h', 'a', 's', 'e']
    &&& forall|i: int| 5 <= i < head.len() ==> '0' <= #[trigger] head[i] <= '9'
}

/// `name` without a leading `phaseN-` or `phaseN_`.
pub open spec fn without_phase(name: Seq<char>) -> Seq<char> {
    let k = first_separator(name, 0);
    if k < name.len() && is_phase_head(name.take(k)) {
        name.skip(k + 1)
    } else {
        name
    }
}

/// The short label of a checkpoint path.
pub open spec fn label_of_checkpoint(path: Seq<char>) -> Seq<char> {
    without_phase(path_name(path))
}

/// The texts that a list of character vectors holds.
pub open spec fn char_rows(rows: Seq<Vec<char>>) -> Seq<Seq<char>> {
    Seq::new(rows.len(), |i: int| rows[i]@)
}

fn split_slashes(path: &Vec<char>) -> (r: Vec<Vec<char>>)
    ensures
        char_rows(r@) == cut_at_slashes(path@),
{
    let mut done: Vec<Vec<char>> = Vec::new();
    let mut cur: Vec<char> = Vec::new();
    let mut i: usize = 0;
    assert(char_rows(done@).push(cur@) =~= cut_at_slashes(path@.take(0)));
    while i < path.len()
        invariant
            i <= path@.len(),
            char_rows(done@).push(cur@) == cut_at_slashes(path@.take(i as int)),
        decreases path.len() - i,
    {
        let c: char = path[i];
        let ghost before = char_rows(done@).push(cur@);
        assert(path@.take(i + 1).drop_last() == path@.take(i as int));
        if c == '/' {
            done.push(cur);
            cur = Vec::new();
            assert(char_rows(done@) =~= before);
        } else {
            cur.push(c);
            assert(char_rows(done@).push(cur@) =~= before.update(
                before.len() - 1,
                before.last().push(c),
            ));
        }
        i = i + 1;
    }
    assert(path@.take(path@.len() as int) == path@);
    let ghost all = char_rows(done@).push(cur@);
    done.push(cur);
    assert(char_rows(done@) =~= all);
    done
}

fn is_chars(v: &Vec<char>, a: char, b: Option<char>) -> (r: bool)
    ensures
        r == (v@ == (match b {
            None => seq![a],
            Some(c) => seq![a, c],
        })),
{
    match b {
        None => {
            let r: bool = v.len() == 1 && v[0] == a;
            assert(r ==> v@ =~= seq![a]);
            r
        },
        Some(c) => {
            let r: bool = v.len() == 2 && v[0] == a && v[1] == c;
            assert(r ==> v@ =~= seq![a, c]);
            r
        },
    }
}

fn split_components(path: &Vec<char>) -> (r: Vec<Vec<char>>)
    ensures
        char_rows(r@) == components(path@),
{
    let mut pieces = split_slashes(path);
    let ghost all = char_rows(pieces@);
    let n: usize = pieces.len();
    let mut out: Vec<Vec<char>> = Vec::new();
    let mut i: usize = 0;
    assert(char_rows(out@) =~= components_upto(all, 0));
    while i < n
        invariant
            i <= n,
            n == all.len(),
            pieces@.len() == n - i,
            forall|k: int| 0 <= k < n - i ==> (#[trigger] pieces@[k])@ == all[i + k],
            char_rows(out@) == components_upto(all, i as int),
        decreases n - i,
    {
        let ghost before = pieces@;
        let piece = pieces.remove(0);
        let ghost rows = char_rows(out@);
        assert(piece@ == all[i as int]);
        if piece.len() > 0 && (i == 0 || !is_chars(&piece, '.', None)) {
            out.push(piece);
            assert(char_rows(out@) =~= rows.push(all[i as int]));
        }
        assert forall|k: int| 0 <= k < n - i - 1 implies (#[trigger] pieces@[k])@ == all[i + 1
            + k] by {
            assert(pieces@[k] == before[k + 1]);
        }
        i = i + 1;
    }
    out
}

/// Copies the characters at `from..to`.
pub fn copy_chars(v: &Vec<char>, from: usize, to: usize) -> (r: Vec<char>)
    requires
        from <= to <= v@.len(),
    ensures
        r@ == v@.subrange(from as int, to as int),
{
    let mut out: Vec<char> = Vec::new();
    let mut i: usize = from;
    while i < to
        invariant
            from <= i <= to <= v@.len(),
            out@ == v@.subrange(from as int, i as int),
        decreases to - i,
    {
        out.push(v[i]);
        assert(v@.subrange(from as int, i + 1) == v@.subrange(from as int, i as int).push(
            v@[i as int],
        ));
        i = i + 1;
    }
    out
}

fn stem_of(name: &Vec<char>) -> (r: Vec<char>)
    ensures
        r@ == stem(name@),
{
    let mut d: usize = name.len();
    assert(name@.take(d as int) == name@);
    while d > 0 && name[d - 1] != '.'
        invariant
            d <= name@.len(),
            last_dot(name@) == last_dot(name@.take(d as int)),
        decreases d,
    {
        assert(name@.take(d as int).drop_last() == name@.take(d - 1));
        d = d - 1;
    }
    assert(d == 0 ==> last_dot(name@) == -1);
    assert(d > 0 ==> last_dot(name@) == d - 1);
    if d <= 1 {
        assert(name@.subrange(0, name@.len() as int) == name@);
        copy_chars(name, 0, name.len())
    } else {
        assert(name@.subrange(0, d - 1) == name@.take(d - 1));
        copy_chars(name, 0, d - 1)
    }
}

fn name_of_path(path: &Vec<char>) -> (r: Vec<char>)
    ensures
        r@ == path_name(path@),
{
    let parts = split_components(path);
    let n: usize = parts.len();
    assert(char_rows(parts@).len() == n);
    if n >= 2 && !is_chars(&parts[n - 2], '.', None) && !is_chars(&parts[n - 2], '.', Some('.')) {
        assert(char_rows(parts@)[n - 2] == parts@[n - 2]@);
        let part: &Vec<char> = &parts[n - 2];
        assert(part@.subrange(0, part@.len() as int) == part@);
        return copy_chars(part, 0, part.len());
    }
    if n >= 1 && !is_chars(&parts[n - 1], '.', None) && !is_chars(&parts[n - 1], '.', Some('.')) {
        assert(char_rows(parts@)[n - 1] == parts@[n - 1]@);
        return stem_of(&parts[n - 1]);
    }
    assert(n >= 1 ==> char_rows(parts@)[n - 1] == parts@[n - 1]@);
    assert(n >= 2 ==> char_rows(parts@)[n - 2] == parts@[n - 2]@);
    assert(path@.subrange(0, path@.len() as int) == path@);
    copy_chars(path, 0, path.len())
}

/// Derives a short label from a checkpoint path: the name of its directory
/// without a leading `phaseN-` or `phaseN_`, else the stem of the file name.
pub fn checkpoint_label(path: &str) -> (r: String)
    ensures
        r@ == label_of_checkpoint(path@),
{
    let cs = text::chars_of(path);
    let name = name_of_path(&cs);
    let n: usize = name.len();
    let mut k: usize = 0;
    while k < n && name[k] != '-' && name[k] != '_'
        invariant
            k <= n == name@.len(),
            first_separator(name@, 0) == first_separator(name@, k as int),
        decreases n - k,
    {
        k = k + 1;
    }
    let mut is_head: bool = k < n && k >= 5 && name[0] == 'p' && name[1] == 'h' && name[2] == 'a'
        && name[3] == 's' && name[4] == 'e';
    assert(k >= 5 ==> (is_head <==> k < n && name@.take(k as int).take(5) =~= seq![
        'p',
        'h',
        'a',
        's',
        'e',
    ]));
    let mut i: usize = 5;
    let ghost prefix_ok = is_head;
    while i < k && is_head
        invariant
            5 <= i,
            i <= k || k < 5,
            k <= n == name@.len(),
            is_head ==> prefix_ok,
            is_head ==> forall|j: int| 5 <= j < i && j < k ==> '0' <= #[trigger] name@[j] <= '9',
            !is_head && prefix_ok ==> exists|j: int|
                5 <= j < k && !('0' <= #[trigger] name@[j] <= '9'),
        decreases k - i,
    {
        if name[i] < '0' || name[i] > '9' {
            is_head = false;
        }
        i = i + 1;
    }
    proof {
        let head = name@.take(k as int);
        if prefix_ok {
            assert(is_head ==> is_phase_head(head));
            if !is_head {
                let j = choose|j: int| 5 <= j < k && !('0' <= #[trigger] name@[j] <= '9');
                assert(head[j] == name@[j]);
            }
        }
    }
    if is_head {
        assert(name@.subrange(k + 1, n as int) == name@.skip(k + 1));
        text::string_of(&copy_chars(&name, k + 1, n))
    } else {
        text::string_of(&name)
    }
}

/// `name` within the directory `base`. An absolute `name` stands alone.
pub open spec fn path_join(base: Seq<char>, name: Seq<char>) -> Seq<char> {
    if name.len() > 0 && name[0] == '/' {
        name
    } else if base.len() == 0 || base.last() == '/' {
        base + name
    } else {
        base + seq!['/'] + name
    }
}

/// `name` within the directory `base`. An absolute `name` stands alone.
pub fn join_path(base: &str, name: &str) -> (r: String)
    ensures
        r@ == path_join(base@, name@),
{
    let b = text::chars_of(base);
    let n = text::chars_of(name);
    if n.len() > 0 && n[0] == '/' {
        return name.to_owned();
    }
    let mut out: String = base.to_owned();
    if b.len() > 0 && b[b.len() - 1] != '/' {
        out.push('/');
        assert(out@ =~= base@ + seq!['/']);
    }
    out.append(name);
    out
}

/// What a run is called after its path: the last component, or the whole path
/// where that is no name.
pub open spec fn file_name_of(path: Seq<char>) -> Seq<char> {
    let parts = components(path);
    if parts.len() >= 1 && is_name(parts.last()) {
        parts.last()
    } else {
        path
    }
}

/// What a run is called after its path: the last component, or the whole path
/// where that is no name.
pub fn file_label(path: &str) -> (r: String)
    ensures
        r@ == file_name_of(path@),
{
    let cs = text::chars_of(path);
    let parts = split_components(&cs);
    let n: usize = parts.len();
    assert(char_rows(parts@).len() == n);
    if n >= 1 {
        assert(char_rows(parts@)[n - 1] == parts@[n - 1]@);
        let last: &Vec<char> = &parts[n - 1];
        if !is_chars(last, '.', None) && !is_chars(last, '.', Some('.')) {
            return text::string_of(last);
        }
    }
    path.to_owned()
}

#[verifier::spinoff_prover]
proof fn lemma_cut_shape(s: Seq<char>)
    ensures
        cut_at_slashes(s).len() > 0,
        forall|i: int, j: int|
            0 <= i < cut_at_slashes(s).len() && 0 <= j < cut_at_slashes(s)[i].len()
                ==> #[trigger] cut_at_slashes(s)[i][j] != '/',
        text::join_texts(cut_at_slashes(s), seq!['/']) == s,
    decreases s.len(),
{
    let pieces = cut_at_slashes(s);
    if s.len() == 0 {
        assert(text::join_texts(pieces, seq!['/']) =~= s);
    } else {
        let t = s.drop_last();
        let before = cut_at_slashes(t);
        lemma_cut_shape(t);
        if s.last() == '/' {
            assert(pieces.drop_last() =~= before);
            assert(pieces.last() =~= Seq::<char>::empty());
            assert(text::join_texts(pieces, seq!['/']) =~= t + seq!['/'] + Seq::<char>::empty());
            assert(s =~= t + seq!['/'] + Seq::<char>::empty());
            assert forall|i: int, j: int|
                0 <= i < pieces.len() && 0 <= j < pieces[i].len() implies #[trigger] pieces[i][j]
                != '/' by {
                assert(before[i][j] != '/');
            }
        } else {
            assert(pieces.drop_last() =~= before.drop_last());
            assert(pieces.last() == before.last().push(s.last()));
            if before.len() == 1 {
                assert(pieces[0] == pieces.last());
                assert(before[0] == t);
                assert(text::join_texts(pieces, seq!['/']) =~= s);
            } else {
                let front = text::join_texts(before.drop_last(), seq!['/']) + seq!['/'];
                assert(t == front + before.last());
                assert(s =~= t.push(s.last()));
                assert(pieces.last() == before.last().push(s.last()));
                assert(text::join_texts(pieces, seq!['/']) =~= front + pieces.last());
                assert(s =~= front + pieces.last());
            }
            assert forall|i: int, j: int|
                0 <= i < pieces.len() && 0 <= j < pieces[i].len() implies #[trigger] pieces[i][j]
                != '/' by {
                if i < before.len() - 1 {
                    assert(before[i][j] != '/');
                } else if j < before.last().len() {
                    assert(before[i][j] != '/');
                }
            }
        }
    }
}

/// Cutting a path at its slashes loses nothing: the pieces hold no slash, and put back
/// together with slashes between them they are the path.
pub proof fn pieces_make_up_the_path(s: Seq<char>)
    ensures
        cut_at_slashes(s).len() > 0,
        forall|i: int, j: int|
            0 <= i < cut_at_slashes(s).len() && 0 <= j < cut_at_slashes(s)[i].len()
                ==> #[trigger] cut_at_slashes(s)[i][j] != '/',
        text::join_texts(cut_at_slashes(s), seq!['/']) == s,
{
    lemma_cut_shape(s);
}

/// Whether a text holds no slash.
pub open spec fn one_piece(s: Seq<char>) -> bool {
    forall|i: int| 0 <= i < s.len() ==> #[trigger] s[i] != '/'
}

#[verifier::spinoff_prover]
proof fn lemma_cut_last(a: Seq<char>, b: Seq<char>)
    requires
        one_piece(b),
    ensures
        cut_at_slashes(a + seq!['/'] + b) == cut_at_slashes(a).push(b),
    decreases b.len(),
{
    let s = a + seq!['/'] + b;
    if b.len() == 0 {
        assert(s.drop_last() =~= a);
        assert(s.last() == '/');
        assert(b =~= Seq::<char>::empty());
    } else {
        let c = b.drop_last();
        assert forall|i: int| 0 <= i < c.len() implies #[trigger] c[i] != '/' by {
            assert(b[i] != '/');
        }
        lemma_cut_last(a, c);
        assert(s.drop_last() =~= a + seq!['/'] + c);
        assert(s.last() == b.last());
        assert(b[b.len() - 1] != '/');
        let before = cut_at_slashes(a).push(c);
        assert(before.last().push(b.last()) =~= b);
        assert(cut_at_slashes(s) =~= cut_at_slashes(a).push(b));
    }
}

proof fn lemma_cut_one(b: Seq<char>)
    requires
        one_piece(b),
    ensures
        cut_at_slashes(b) == seq![b],
    decreases b.len(),
{
    if b.len() > 0 {
        let c = b.drop_last();
        assert forall|i: int| 0 <= i < c.len() implies #[trigger] c[i] != '/' by {
            assert(b[i] != '/');
        }
        lemma_cut_one(c);
        assert(b[b.len() - 1] != '/');
        assert(c.push(b.last()) =~= b);
        assert(cut_at_slashes(b) =~= seq![b]);
    } else {
        assert(b =~= Seq::<char>::empty());
    }
}

proof fn lemma_components_prefix(a: Seq<Seq<char>>, b: Seq<Seq<char>>, k: int)
    requires
        0 <= k <= a.len(),
        k <= b.len(),
        a.take(k) == b.take(k),
    ensures
        components_upto(a, k) == components_upto(b, k),
    decreases k,
{
    if k > 0 {
        assert(a.take(k)[k - 1] == b.take(k)[k - 1]);
        assert(a.take(k - 1) =~= a.take(k).take(k - 1));
        assert(b.take(k - 1) =~= b.take(k).take(k - 1));
        lemma_components_prefix(a, b, k - 1);
    }
}

/// The components of a path are those of its directory and then the last piece. A last
/// piece that is empty or a dot is none.
pub proof fn the_last_piece_is_the_last_component(dir: Seq<char>, last: Seq<char>)
    requires
        one_piece(last),
    ensures
        last.len() > 0 && last != seq!['.'] ==> components(dir + seq!['/'] + last) == components(
            dir,
        ).push(last),
        last.len() == 0 || last == seq!['.'] ==> components(dir + seq!['/'] + last) == components(
            dir,
        ),
        components(last) == (if last.len() > 0 {
            seq![last]
        } else {
            Seq::empty()
        }),
{
    lemma_cut_last(dir, last);
    lemma_cut_shape(dir);
    let a = cut_at_slashes(dir);
    let b = cut_at_slashes(dir + seq!['/'] + last);
    assert(b.take(a.len() as int) =~= a.take(a.len() as int));
    lemma_components_prefix(a, b, a.len() as int);
    lemma_cut_one(last);
    assert(components_upto(seq![last], 0) =~= Seq::<Seq<char>>::empty());
    assert(components(last) =~= (if last.len() > 0 {
        seq![last]
    } else {
        Seq::empty()
    }));
}

/// A checkpoint is called after the directory that its file lies in, whatever stands in
/// front of that.
pub proof fn checkpoints_are_called_after_their_directory(
    front: Seq<char>,
    dir: Seq<char>,
    file: Seq<char>,
)
    requires
        one_piece(dir),
        dir.len() > 0,
        is_name(dir),
        one_piece(file),
        file.len() > 0,
        file != seq!['.'],
    ensures
        path_name(dir + seq!['/'] + file) == dir,
        path_name(front + seq!['/'] + dir + seq!['/'] + file) == dir,
{
    the_last_piece_is_the_last_component(dir, file);
    the_last_piece_is_the_last_component(front, dir);
    the_last_piece_is_the_last_component(dir, dir);
    the_last_piece_is_the_last_component(front + seq!['/'] + dir, file);
}

/// A checkpoint without a directory is called after its file, without the extension: the
/// last dot and what follows it. A name without a dot, or with none but at its front,
/// stands as it is.
#[verifier::spinoff_prover]
pub proof fn lone_checkpoints_are_called_after_their_file(name: Seq<char>, extension: Seq<char>)
    requires
        one_piece(name),
        one_piece(extension),
        name.len() > 0,
        forall|i: int| 0 <= i < extension.len() ==> #[trigger] extension[i] != '.',
        is_name(name + seq!['.'] + extension),
    ensures
        path_name(name + seq!['.'] + extension) == name,
        extension.len() > 0 ==> path_name(extension) == extension,
        extension.len() > 0 ==> path_name(seq!['.'] + extension) == seq!['.'] + extension,
{
    let file = name + seq!['.'] + extension;
    let hidden = seq!['.'] + extension;
    the_last_piece_is_the_last_component(name, file);
    lemma_last_dot(name, extension);
    assert(file.take(name.len() as int) =~= name);
    if extension.len() > 0 {
        the_last_piece_is_the_last_component(name, extension);
        the_last_piece_is_the_last_component(name, hidden);
        lemma_last_dot(Seq::empty(), extension);
        assert(Seq::<char>::empty() + seq!['.'] + extension =~= hidden);
        lemma_no_dot(extension);
        assert(extension[0] != '.');
        assert(hidden[1] == extension[0]);
        assert(is_name(extension)) by {
            assert(seq!['.'][0] == '.');
            assert(seq!['.', '.'][0] == '.');
        }
        assert(is_name(hidden)) by {
            assert(hidden.len() >= 2);
            assert(seq!['.', '.'][1] == '.');
        }
    }
}

proof fn lemma_no_dot(s: Seq<char>)
    requires
        forall|i: int| 0 <= i < s.len() ==> #[trigger] s[i] != '.',
    ensures
        last_dot(s) == -1,
    decreases s.len(),
{
    if s.len() > 0 {
        assert(s[s.len() - 1] != '.');
        let t = s.drop_last();
        assert forall|i: int| 0 <= i < t.len() implies #[trigger] t[i] != '.' by {
            assert(s[i] != '.');
        }
        lemma_no_dot(t);
    }
}

proof fn lemma_last_dot(name: Seq<char>, extension: Seq<char>)
    requires
        forall|i: int| 0 <= i < extension.len() ==> #[trigger] extension[i] != '.',
    ensures
        last_dot(name + seq!['.'] + extension) == name.len(),
    decreases extension.len(),
{
    let s = name + seq!['.'] + extension;
    if extension.len() == 0 {
        assert(s.last() == '.');
    } else {
        let e = extension.drop_last();
        assert(extension[extension.len() - 1] != '.');
        assert forall|i: int| 0 <= i < e.len() implies #[trigger] e[i] != '.' by {
            assert(extension[i] != '.');
        }
        lemma_last_dot(name, e);
        assert(s.drop_last() =~= name + seq!['.'] + e);
        assert(s.last() == extension.last());
    }
}

/// Whether `head` is `phase` and a number, with a `-` or a `_` behind it.
pub open spec fn phase_prefix(head: Seq<char>) -> bool {
    &&& head.len() >= 6
    &&& head.take(5) == seq!['p', 'h', 'a', 's', 'e']
    &&& forall|i: int| 5 <= i < head.len() - 1 ==> '0' <= #[trigger] head[i] <= '9'
    &&& head.last() == '-' || head.last() == '_'
}

/// A label leaves out a leading `phase` with its number and separator, and that alone:
/// what follows such a prefix is the label, and a name without one is its own label.
#[verifier::spinoff_prover]
pub proof fn labels_leave_out_the_phase(name: Seq<char>, k: int)
    requires
        0 <= k <= name.len(),
    ensures
        phase_prefix(name.take(k)) ==> without_phase(name) == name.skip(k),
        (forall|j: int| 0 <= j <= name.len() ==> !phase_prefix(#[trigger] name.take(j)))
            ==> without_phase(name) == name,
{
    let s = first_separator(name, 0);
    lemma_first_separator(name, 0);
    if phase_prefix(name.take(k)) {
        let head = name.take(k);
        assert(head.last() == name[k - 1]);
        assert forall|i: int| 0 <= i < k - 1 implies #[trigger] name[i] != '-' && name[i]
            != '_' by {
            if i < 5 {
                assert(head.take(5)[i] == name[i]);
            } else {
                assert(head[i] == name[i]);
            }
        }
        assert(s == k - 1);
        assert(name.take(s).take(5) =~= head.take(5));
        assert forall|i: int| 5 <= i < s implies '0' <= #[trigger] name.take(s)[i] <= '9' by {
            assert(head[i] == name[i]);
        }
        assert(is_phase_head(name.take(s)));
    }
    if forall|j: int| 0 <= j <= name.len() ==> !phase_prefix(#[trigger] name.take(j)) {
        if s < name.len() && is_phase_head(name.take(s)) {
            let head = name.take(s + 1);
            assert(head.take(5) =~= name.take(s).take(5));
            assert forall|i: int| 5 <= i < head.len() - 1 implies '0' <= #[trigger] head[i]
                <= '9' by {
                assert(name.take(s)[i] == name[i]);
            }
            assert(phase_prefix(head));
        }
    }
}

proof fn lemma_first_separator(s: Seq<char>, i: int)
    requires
        0 <= i <= s.len(),
    ensures
        i <= first_separator(s, i) <= s.len(),
        forall|j: int|
            i <= j < first_separator(s, i) ==> #[trigger] s[j] != '-' && s[j] != '_',
        first_separator(s, i) < s.len() ==> s[first_separator(s, i)] == '-' || s[first_separator(
            s,
            i,
        )] == '_',
    decreases s.len() - i,
{
    if i < s.len() && s[i] != '-' && s[i] != '_' {
        lemma_first_separator(s, i + 1);
    }
}

/// A file put into a directory is found there: the joined path has the directory's
/// components and then the name, and is called after that name.
#[verifier::spinoff_prover]
pub proof fn joined_paths_end_in_their_name(base: Seq<char>, name: Seq<char>)
    requires
        one_piece(name),
        name.len() > 0,
        is_name(name),
    ensures
        base.len() > 0 ==> components(path_join(base, name)) == components(base).push(name),
        base.len() == 0 ==> path_join(base, name) == name,
        file_name_of(path_join(base, name)) == name,
        base.is_prefix_of(path_join(base, name)),
        name.is_suffix_of(path_join(base, name)),
        path_join(base, name).len() <= base.len() + 1 + name.len(),
{
    let p = path_join(base, name);
    assert(name[0] != '/');
    assert(p.subrange(0, base.len() as int) =~= base);
    assert(p.subrange((p.len() - name.len()) as int, p.len() as int) =~= name);
    if base.len() == 0 {
        assert(p =~= name);
        the_last_piece_is_the_last_component(base, name);
    } else if base.last() == '/' {
        let dir = base.drop_last();
        assert(p =~= dir + seq!['/'] + name);
        the_last_piece_is_the_last_component(dir, name);
        the_last_piece_is_the_last_component(dir, Seq::empty());
        assert(base =~= dir + seq!['/'] + Seq::<char>::empty());
    } else {
        the_last_piece_is_the_last_component(base, name);
    }
}

/// An absolute path stands alone.
pub proof fn absolute_paths_stand_alone(base: Seq<char>, name: Seq<char>)
    requires
        name.len() > 0,
        name[0] == '/',
    ensures
        path_join(base, name) == name,
{
}

} // verus!
