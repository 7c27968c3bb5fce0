//! Request-path handling: splitting a path into pieces, the sanitised
//! relative path that a request resolves to, the link of an entry, and the
//! breadcrumb shown for a listed directory.
use vstd::prelude::*;
use vstd::utf8::{decode_utf8, encode_utf8, valid_utf8};
use crate::text::{append_chars, chars_of, string_of};

verus! {

/// `p` split at every `/`, empty pieces kept: "a//b/" gives a, "", b, "".
pub open spec fn split_slash(p: Seq<char>) -> Seq<Seq<char>>
    decreases p.len(),
{
    if p.len() == 0 {
        seq![Seq::<char>::empty()]
    } else {
        let prev = split_slash(p.drop_last());
        if p.last() == '/' {
            prev.push(Seq::<char>::empty())
        } else {
            prev.update(prev.len() - 1, prev.last().push(p.last()))
        }
    }
}

/// A piece that names an entry: not empty, not `.` and not `..`.
pub open spec fn keeps(c: Seq<char>) -> bool {
    c.len() > 0 && c != seq!['.'] && c != seq!['.', '.']
}

/// A component that a sanitised path may hold: one that names an entry and
/// contains no separator.
pub open spec fn is_normal(c: Seq<char>) -> bool {
    keeps(c) && !c.contains('/')
}

/// The pieces of `segs` that name an entry, in order.
pub open spec fn kept(segs: Seq<Seq<char>>) -> Seq<Seq<char>>
    decreases segs.len(),
{
    if segs.len() == 0 {
        segs
    } else if keeps(segs.last()) {
        kept(segs.drop_last()).push(segs.last())
    } else {
        kept(segs.drop_last())
    }
}

/// The components of a request path that survive sanitising: root, `.` and
/// `..` are dropped.
pub open spec fn normal_components(p: Seq<char>) -> Seq<Seq<char>> {
    kept(split_slash(p))
}

/// `c` appended to path `p` as one more component (an absolute `c`
/// replaces `p`).
pub open spec fn push_component(p: Seq<char>, c: Seq<char>) -> Seq<char> {
    if c.len() > 0 && c[0] == '/' {
        c
    } else if p.len() == 0 || p.last() == '/' {
        p + c
    } else {
        p.push('/') + c
    }
}

/// Every component of `segs` appended to `base`, in order.
pub open spec fn join_all(base: Seq<char>, segs: Seq<Seq<char>>) -> Seq<char>
    decreases segs.len(),
{
    if segs.len() == 0 {
        base
    } else {
        push_component(join_all(base, segs.drop_last()), segs.last())
    }
}

/// The sanitised path that request path `p` denotes under `base`.
pub open spec fn relative_path(base: Seq<char>, p: Seq<char>) -> Seq<char> {
    join_all(base, normal_components(p))
}

/// Pieces joined with `/` between them.
pub open spec fn join_slash(segs: Seq<Seq<char>>) -> Seq<char>
    decreases segs.len(),
{
    if segs.len() == 0 {
        Seq::<char>::empty()
    } else if segs.len() == 1 {
        segs[0]
    } else {
        join_slash(segs.drop_last()).push('/') + segs.last()
    }
}

/// A piece that path parsing skips past: empty, or a lone `.`.
pub open spec fn is_skip(c: Seq<char>) -> bool {
    c.len() == 0 || c == seq!['.']
}

/// First index from `i` on whose piece is not skipped.
pub open spec fn first_unskipped(s: Seq<Seq<char>>, i: int) -> int
    decreases s.len() - i,
{
    if 0 <= i < s.len() && is_skip(s[i]) {
        first_unskipped(s, i + 1)
    } else {
        i
    }
}

/// End index, counting down from `j` to no lower than `lo`, after which only
/// skipped pieces stand.
pub open spec fn last_unskipped(s: Seq<Seq<char>>, lo: int, j: int) -> int
    decreases j,
{
    if lo < j && 0 < j <= s.len() && is_skip(s[j - 1]) {
        last_unskipped(s, lo, j - 1)
    } else {
        j
    }
}

/// What follows the first component of `p`, with leading and trailing
/// empty or `.` pieces trimmed; `.` when nothing is left.
pub open spec fn without_first_component(p: Seq<char>) -> Seq<char> {
    let s = split_slash(p);
    let lo = first_unskipped(s, 1);
    let hi = last_unskipped(s, lo, s.len() as int);
    let rest = join_slash(s.subrange(lo, hi));
    if rest.len() == 0 {
        seq!['.']
    } else {
        rest
    }
}

proof fn lemma_split_nonempty(p: Seq<char>)
    ensures
        split_slash(p).len() >= 1,
    decreases p.len(),
{
    if p.len() > 0 {
        lemma_split_nonempty(p.drop_last());
    }
}

/// The pieces of `p` split at every `/`.
fn split_pieces(p: &Vec<char>) -> (r: Vec<Vec<char>>)
    ensures
        r@.len() == split_slash(p@).len(),
        forall|k: int| 0 <= k < r@.len() ==> (#[trigger] r@[k])@ == split_slash(p@)[k],
{
    let mut done: Vec<Vec<char>> = Vec::new();
    let mut cur: Vec<char> = Vec::new();
    let ghost mut gd: Seq<Seq<char>> = Seq::empty();
    let mut i: usize = 0;
    assert(p@.take(0) =~= Seq::<char>::empty());
    while i < p.len()
        invariant
            i <= p@.len(),
            split_slash(p@.take(i as int)) == gd.push(cur@),
            done@.len() == gd.len(),
            forall|k: int| 0 <= k < done@.len() ==> (#[trigger] done@[k])@ == gd[k],
        decreases p@.len() - i,
    {
        let c = p[i];
        assert(p@.take(i + 1).drop_last() =~= p@.take(i as int));
        if c == '/' {
            proof {
                gd = gd.push(cur@);
            }
            done.push(cur);
            cur = Vec::new();
            assert(split_slash(p@.take(i + 1)) =~= gd.push(cur@));
        } else {
            cur.push(c);
            assert(split_slash(p@.take(i + 1)) =~= gd.push(cur@));
        }
        i = i + 1;
    }
    assert(p@.take(i as int) =~= p@);
    proof {
        gd = gd.push(cur@);
    }
    done.push(cur);
    done
}

fn keeps_exec(c: &Vec<char>) -> (r: bool)
    ensures
        r == keeps(c@),
{
    if c.len() == 0 {
        false
    } else if c.len() == 1 {
        if c[0] == '.' {
            assert(c@ =~= seq!['.']);
            false
        } else {
            assert(c@[0] != seq!['.'][0]);
            true
        }
    } else if c.len() == 2 {
        if c[0] == '.' && c[1] == '.' {
            assert(c@ =~= seq!['.', '.']);
            false
        } else {
            assert(c@[0] != seq!['.', '.'][0] || c@[1] != seq!['.', '.'][1]);
            true
        }
    } else {
        true
    }
}

fn is_skip_exec(c: &Vec<char>) -> (r: bool)
    ensures
        r == is_skip(c@),
{
    if c.len() == 0 {
        true
    } else if c.len() == 1 && c[0] == '.' {
        assert(c@ =~= seq!['.']);
        true
    } else {
        assert(c@.len() != 1 || c@[0] != seq!['.'][0]);
        false
    }
}

pub(crate) fn push_component_exec(r: &mut Vec<char>, c: &Vec<char>)
    ensures
        final(r)@ == push_component(old(r)@, c@),
{
    if c.len() > 0 && c[0] == '/' {
        *r = Vec::new();
        append_chars(r, c);
        assert(r@ =~= c@);
    } else {
        if !(r.len() == 0 || r[r.len() - 1] == '/') {
            r.push('/');
        }
        append_chars(r, c);
    }
}

/// The sanitised relative path that request path `path` denotes under
/// `base`: each component that names an entry is appended to `base`, and
/// root, `.` and `..` components are dropped rather than refused.
pub fn to_relative(base: &str, path: &str) -> (r: String)
    ensures
        r@ == relative_path(base@, path@),
{
    let pc = chars_of(path);
    let pieces = split_pieces(&pc);
    let ghost s = split_slash(pc@);
    let mut out = chars_of(base);
    let mut i: usize = 0;
    assert(s.take(0) =~= Seq::<Seq<char>>::empty());
    while i < pieces.len()
        invariant
            i <= pieces@.len(),
            pieces@.len() == s.len(),
            forall|k: int| 0 <= k < pieces@.len() ==> (#[trigger] pieces@[k])@ == s[k],
            out@ == join_all(base@, kept(s.take(i as int))),
        decreases pieces@.len() - i,
    {
        assert(s.take(i + 1).drop_last() =~= s.take(i as int));
        assert(s.take(i + 1).last() == pieces@[i as int]@);
        if keeps_exec(&pieces[i]) {
            push_component_exec(&mut out, &pieces[i]);
            assert(kept(s.take(i + 1)).drop_last() =~= kept(s.take(i as int)));
        }
        i = i + 1;
    }
    assert(s.take(i as int) =~= s);
    string_of(&out)
}

/// The path after its first component, trimmed of empty and `.` pieces at
/// both ends, or `.` when nothing remains: the breadcrumb of a listed
/// directory, whose sanitised path starts with `.`.
pub fn remove_first_component(path: &str) -> (r: String)
    ensures
        r@ == without_first_component(path@),
{
    let pc = chars_of(path);
    let pieces = split_pieces(&pc);
    let ghost s = split_slash(pc@);
    proof {
        lemma_split_nonempty(pc@);
    }
    let mut lo: usize = 1;
    while lo < pieces.len() && is_skip_exec(&pieces[lo])
        invariant
            1 <= lo <= pieces@.len(),
            pieces@.len() == s.len(),
            forall|k: int| 0 <= k < pieces@.len() ==> (#[trigger] pieces@[k])@ == s[k],
            first_unskipped(s, lo as int) == first_unskipped(s, 1),
        decreases pieces@.len() - lo,
    {
        lo = lo + 1;
    }
    let mut hi: usize = pieces.len();
    while hi > lo && is_skip_exec(&pieces[hi - 1])
        invariant
            lo <= hi <= pieces@.len(),
            pieces@.len() == s.len(),
            forall|k: int| 0 <= k < pieces@.len() ==> (#[trigger] pieces@[k])@ == s[k],
            first_unskipped(s, 1) == lo,
            last_unskipped(s, lo as int, hi as int) == last_unskipped(s, lo as int, s.len() as int),
        decreases hi,
    {
        hi = hi - 1;
    }
    let mut out: Vec<char> = Vec::new();
    let mut k: usize = lo;
    assert(s.subrange(lo as int, lo as int) =~= Seq::<Seq<char>>::empty());
    while k < hi
        invariant
            lo <= k <= hi <= pieces@.len(),
            pieces@.len() == s.len(),
            forall|j: int| 0 <= j < pieces@.len() ==> (#[trigger] pieces@[j])@ == s[j],
            out@ == join_slash(s.subrange(lo as int, k as int)),
        decreases hi - k,
    {
        let ghost prev = s.subrange(lo as int, k as int);
        assert(s.subrange(lo as int, k + 1) =~= prev.push(s[k as int]));
        assert(prev.push(s[k as int]).drop_last() =~= prev);
        if k > lo {
            out.push('/');
        } else {
            assert(out@ =~= Seq::<char>::empty());
        }
        append_chars(&mut out, &pieces[k]);
        proof {
            if k == lo {
                assert(out@ =~= s[k as int]);
            }
        }
        k = k + 1;
    }
    if out.len() == 0 {
        out.push('.');
        assert(out@ =~= seq!['.']);
    }
    string_of(&out)
}

/// Whether URL encoding leaves byte `b` as it is: ASCII letters, digits and
/// `-`, `.`, `_`, `~`.
pub open spec fn is_unreserved(b: u8) -> bool {
    (0x30 <= b <= 0x39) || (0x41 <= b <= 0x5a) || (0x61 <= b <= 0x7a) || b == 0x2d || b == 0x2e
        || b == 0x5f || b == 0x7e
}

/// Upper-case hexadecimal digit of `d`, for `d` below 16.
pub open spec fn hex_digit_byte(d: u8) -> u8 {
    if d < 10 {
        (0x30 + d) as u8
    } else {
        (0x41 - 10 + d) as u8
    }
}

/// The bytes of the URL encoding of `bs`: each byte that is not unreserved
/// becomes `%` and two upper-case hexadecimal digits.
pub open spec fn percent_encode_bytes(bs: Seq<u8>) -> Seq<u8>
    decreases bs.len(),
{
    if bs.len() == 0 {
        Seq::<u8>::empty()
    } else {
        let b = bs[0];
        let head = if is_unreserved(b) {
            seq![b]
        } else {
            seq![0x25u8, hex_digit_byte(b / 16), hex_digit_byte(b % 16)]
        };
        head + percent_encode_bytes(bs.drop_first())
    }
}

/// Value of a hexadecimal digit byte, either case.
pub open spec fn hex_value(b: u8) -> Option<u8> {
    if 0x30 <= b <= 0x39 {
        Some((b - 0x30) as u8)
    } else if 0x41 <= b <= 0x46 {
        Some((b - 0x41 + 10) as u8)
    } else if 0x61 <= b <= 0x66 {
        Some((b - 0x61 + 10) as u8)
    } else {
        None
    }
}

/// The bytes that URL decoding makes of `bs`: `%` followed by two
/// hexadecimal digits becomes the byte they spell; every other byte, a
/// stray `%` included, stays.
pub open spec fn percent_decode_bytes(bs: Seq<u8>) -> Seq<u8>
    decreases bs.len(),
{
    if bs.len() == 0 {
        Seq::<u8>::empty()
    } else if bs.len() >= 3 && bs[0] == 0x25 && hex_value(bs[1]) is Some && hex_value(
        bs[2],
    ) is Some {
        seq![(hex_value(bs[1])->0 * 16 + hex_value(bs[2])->0) as u8] + percent_decode_bytes(
            bs.subrange(3, bs.len() as int),
        )
    } else {
        seq![bs[0]] + percent_decode_bytes(bs.drop_first())
    }
}

/// The text that URL decoding makes of `s`, when its bytes are UTF-8.
pub open spec fn percent_decoded(s: Seq<char>) -> Option<Seq<char>> {
    let bs = percent_decode_bytes(encode_utf8(s));
    if valid_utf8(bs) {
        Some(decode_utf8(bs))
    } else {
        None
    }
}

/// Relies on `urlencoding::encode`: every byte of the UTF-8 encoding but
/// the unreserved ones is written as `%XX`.
#[verifier::external_body]
fn url_encode(s: &str) -> (r: String)
    ensures
        r@ == percent_encoded(s@),
{
    urlencoding::encode(s).into_owned()
}

/// Relies on `urlencoding::decode`: `%XX` sequences are decoded to bytes,
/// and the result is returned when those bytes are UTF-8.
#[verifier::external_body]
fn url_decode(s: &str) -> (r: Option<String>)
    ensures
        r is Some <==> percent_decoded(s@) is Some,
        r matches Some(d) ==> d@ == percent_decoded(s@)->0,
{
    match urlencoding::decode(s) {
        Ok(d) => Some(d.into_owned()),
        Err(_) => None,
    }
}

/// The characters of the URL encoding of `c`.
pub open spec fn percent_encoded(c: Seq<char>) -> Seq<char> {
    percent_encode_bytes(encode_utf8(c)).map_values(|b: u8| b as char)
}

/// The pieces of `segs` that are neither empty nor `.`, in order.
pub open spec fn visible_pieces(segs: Seq<Seq<char>>) -> Seq<Seq<char>>
    decreases segs.len(),
{
    if segs.len() == 0 {
        segs
    } else if !is_skip(segs.last()) {
        visible_pieces(segs.drop_last()).push(segs.last())
    } else {
        visible_pieces(segs.drop_last())
    }
}

/// The components of `p` that a link spells out: the root, when `p` is
/// absolute, then every piece but empty and `.` ones.
pub open spec fn href_components(p: Seq<char>) -> Seq<Seq<char>> {
    let root = if p.len() > 0 && p[0] == '/' {
        seq![seq!['/']]
    } else {
        Seq::<Seq<char>>::empty()
    };
    root + visible_pieces(split_slash(p))
}

/// The link of path `p`: `/` and its URL-encoded components joined by `/`.
pub open spec fn href_of(p: Seq<char>) -> Seq<char> {
    seq!['/'] + join_slash(href_components(p).map_values(|c: Seq<char>| percent_encoded(c)))
}

fn encode_piece(c: &Vec<char>) -> (r: Vec<char>)
    ensures
        r@ == percent_encoded(c@),
{
    let s = string_of(c);
    let e = url_encode(s.as_str());
    chars_of(e.as_str())
}

/// The link of `path`: `/` followed by its components, each URL-encoded,
/// joined with `/`; `.` components are left out.
pub fn path_to_href(path: &str) -> (r: String)
    ensures
        r@ == href_of(path@),
{
    let pc = chars_of(path);
    let pieces = split_pieces(&pc);
    let ghost s = split_slash(pc@);
    let ghost f = |c: Seq<char>| percent_encoded(c);
    let mut out: Vec<char> = Vec::new();
    out.push('/');
    let ghost mut h: Seq<Seq<char>> = Seq::empty();
    let mut any = false;
    if pc.len() > 0 && pc[0] == '/' {
        let mut root: Vec<char> = Vec::new();
        root.push('/');
        let e = encode_piece(&root);
        append_chars(&mut out, &e);
        proof {
            h = seq![seq!['/']];
            assert(root@ =~= seq!['/']);
            assert(h.map_values(f) =~= seq![percent_encoded(seq!['/'])]);
            assert(out@ =~= seq!['/'] + join_slash(h.map_values(f)));
        }
        any = true;
    }
    let ghost root_part = h;
    assert(s.take(0) =~= Seq::<Seq<char>>::empty());
    assert(root_part + visible_pieces(s.take(0)) =~= h);
    let mut k: usize = 0;
    while k < pieces.len()
        invariant
            k <= pieces@.len(),
            pieces@.len() == s.len(),
            forall|j: int| 0 <= j < pieces@.len() ==> (#[trigger] pieces@[j])@ == s[j],
            h == root_part + visible_pieces(s.take(k as int)),
            any == (h.len() > 0),
            out@ == seq!['/'] + join_slash(h.map_values(f)),
            f == (|c: Seq<char>| percent_encoded(c)),
        decreases pieces@.len() - k,
    {
        assert(s.take(k + 1).drop_last() =~= s.take(k as int));
        assert(s.take(k + 1).last() == pieces@[k as int]@);
        if !is_skip_exec(&pieces[k]) {
            let e = encode_piece(&pieces[k]);
            let ghost old_out = out@;
            if any {
                out.push('/');
            }
            append_chars(&mut out, &e);
            proof {
                let c = pieces@[k as int]@;
                let h2 = h.push(c);
                assert(root_part + visible_pieces(s.take(k + 1)) =~= h2);
                assert(h2.map_values(f) =~= h.map_values(f).push(percent_encoded(c)));
                assert(h.map_values(f).push(percent_encoded(c)).drop_last() =~= h.map_values(f));
                if !any {
                    assert(h.map_values(f).push(percent_encoded(c)) =~= seq![percent_encoded(c)]);
                    assert(out@ =~= seq!['/'] + join_slash(h2.map_values(f)));
                } else {
                    assert(out@ =~= seq!['/'] + join_slash(h2.map_values(f)));
                }
                h = h2;
            }
            any = true;
        }
        k = k + 1;
    }
    assert(s.take(k as int) =~= s);
    string_of(&out)
}

/// What a request path asks for.
pub enum Resolution {
    /// The decoded path lacks its trailing `/`: send the client to this
    /// path, which has it.
    Redirect(String),
    /// List the directory at this sanitised relative path.
    List(String),
    /// The path does not decode to text.
    NotFound,
}

/// Whether `d` ends with `/`.
pub open spec fn ends_with_slash(d: Seq<char>) -> bool {
    d.len() > 0 && d.last() == '/'
}

/// Decodes the raw request path `raw` and decides what to do with it: a
/// path that does not decode is not found; one without a trailing `/` is
/// redirected to the same path with it, before any file is touched; any
/// other is listed at its sanitised path under `.`.
pub fn resolve_request(raw: &str) -> (r: Resolution)
    ensures
        percent_decoded(raw@) is None ==> r is NotFound,
        percent_decoded(raw@) matches Some(d) ==> if ends_with_slash(d) {
            r matches Resolution::List(p) && p@ == relative_path(seq!['.'], d)
        } else {
            r matches Resolution::Redirect(t) && t@ == d.push('/')
        },
{
    match url_decode(raw) {
        None => Resolution::NotFound,
        Some(d) => {
            let dc = chars_of(d.as_str());
            if dc.len() > 0 && dc[dc.len() - 1] == '/' {
                let base = ".";
                proof {
                    reveal_strlit(".");
                }
                assert(base@ =~= seq!['.']);
                Resolution::List(to_relative(base, d.as_str()))
            } else {
                let mut t = dc;
                t.push('/');
                Resolution::Redirect(string_of(&t))
            }
        },
    }
}

proof fn lemma_split_no_slash(p: Seq<char>)
    ensures
        forall|i: int| 0 <= i < split_slash(p).len() ==> !(#[trigger] split_slash(p)[i]).contains('/'),
    decreases p.len(),
{
    lemma_split_nonempty(p);
    if p.len() > 0 {
        let prev = split_slash(p.drop_last());
        lemma_split_no_slash(p.drop_last());
        lemma_split_nonempty(p.drop_last());
        if p.last() != '/' {
            let l = prev.last();
            assert forall|i: int| 0 <= i < split_slash(p).len() implies !(
            #[trigger] split_slash(p)[i]).contains('/') by {
                if i == prev.len() - 1 {
                    assert(!l.contains('/'));
                    let n = l.push(p.last());
                    if n.contains('/') {
                        let j = choose|j: int| 0 <= j < n.len() && n[j] == '/';
                        if j < l.len() {
                            assert(l[j] == '/');
                        }
                    }
                }
            }
        } else {
            assert forall|i: int| 0 <= i < split_slash(p).len() implies !(
            #[trigger] split_slash(p)[i]).contains('/') by {
                if i == prev.len() {
                    assert(split_slash(p)[i] =~= Seq::<char>::empty());
                }
            }
        }
    }
}

proof fn lemma_kept_normal(segs: Seq<Seq<char>>)
    requires
        forall|i: int| 0 <= i < segs.len() ==> !(#[trigger] segs[i]).contains('/'),
    ensures
        forall|i: int| 0 <= i < kept(segs).len() ==> is_normal(#[trigger] kept(segs)[i]),
    decreases segs.len(),
{
    if segs.len() > 0 {
        let d = segs.drop_last();
        assert forall|i: int| 0 <= i < d.len() implies !(#[trigger] d[i]).contains('/') by {
            assert(d[i] == segs[i]);
        }
        lemma_kept_normal(d);
        assert(!segs[segs.len() - 1].contains('/'));
        assert(segs.last() == segs[segs.len() - 1]);
        assert forall|i: int| 0 <= i < kept(segs).len() implies is_normal(
        #[trigger] kept(segs)[i]) by {
            if i < kept(d).len() {
                assert(kept(segs)[i] == kept(d)[i]);
            }
        }
    }
}

proof fn lemma_split_push_piece(x: Seq<char>, c: Seq<char>)
    requires
        !c.contains('/'),
    ensures
        split_slash(x.push('/') + c) == split_slash(x).push(c),
    decreases c.len(),
{
    if c.len() == 0 {
        assert(x.push('/') + c =~= x.push('/'));
        assert(x.push('/').drop_last() =~= x);
        assert(c =~= Seq::<char>::empty());
    } else {
        let c0 = c.drop_last();
        assert(!c0.contains('/')) by {
            if c0.contains('/') {
                let j = choose|j: int| 0 <= j < c0.len() && c0[j] == '/';
                assert(c[j] == '/');
            }
        }
        lemma_split_push_piece(x, c0);
        assert((x.push('/') + c).drop_last() =~= x.push('/') + c0);
        assert(c.last() != '/') by {
            assert(c[c.len() - 1] == c.last());
        }
        assert(c0.push(c.last()) =~= c);
        assert(split_slash(x).push(c0).update(split_slash(x).len() as int, c0.push(c.last()))
            =~= split_slash(x).push(c));
    }
}

proof fn lemma_join_shape(segs: Seq<Seq<char>>)
    requires
        forall|i: int| 0 <= i < segs.len() ==> is_normal(#[trigger] segs[i]),
    ensures
        join_all(seq!['.'], segs).len() > 0,
        join_all(seq!['.'], segs)[0] == '.',
        join_all(seq!['.'], segs).last() != '/',
        split_slash(join_all(seq!['.'], segs)) == seq![seq!['.']] + segs,
    decreases segs.len(),
{
    if segs.len() == 0 {
        let d = seq!['.'];
        assert(d.drop_last() =~= Seq::<char>::empty());
        assert(Seq::<char>::empty().push('.') =~= d);
        assert(split_slash(Seq::<char>::empty()) == seq![Seq::<char>::empty()]);
        assert(split_slash(d).len() == 1);
        assert(split_slash(d)[0] =~= seq!['.']);
        assert(split_slash(d) =~= seq![seq!['.']]);
        assert(seq![seq!['.']] + segs =~= seq![seq!['.']]);
    } else {
        let d = segs.drop_last();
        let c = segs.last();
        assert forall|i: int| 0 <= i < d.len() implies is_normal(#[trigger] d[i]) by {
            assert(d[i] == segs[i]);
        }
        lemma_join_shape(d);
        let j = join_all(seq!['.'], d);
        assert(is_normal(segs[segs.len() - 1]));
        assert(c[0] != '/');
        assert(c.last() != '/') by {
            assert(c[c.len() - 1] == c.last());
        }
        assert(join_all(seq!['.'], segs) == j.push('/') + c);
        lemma_split_push_piece(j, c);
        assert(seq![seq!['.']] + segs =~= (seq![seq!['.']] + d).push(c));
        assert((j.push('/') + c)[0] == j[0]);
        assert((j.push('/') + c).last() == c.last());
    }
}

proof fn lemma_kept_after_dot(segs: Seq<Seq<char>>)
    requires
        forall|i: int| 0 <= i < segs.len() ==> is_normal(#[trigger] segs[i]),
    ensures
        kept(seq![seq!['.']] + segs) == segs,
    decreases segs.len(),
{
    if segs.len() == 0 {
        let one = seq![seq!['.']];
        assert(one + segs =~= one);
        assert(one.drop_last() =~= Seq::<Seq<char>>::empty());
        assert(!keeps(one.last()));
        assert(kept(Seq::<Seq<char>>::empty()) == Seq::<Seq<char>>::empty());
        assert(kept(one) == kept(one.drop_last()));
        assert(kept(one) =~= segs);
    } else {
        let d = segs.drop_last();
        assert forall|i: int| 0 <= i < d.len() implies is_normal(#[trigger] d[i]) by {
            assert(d[i] == segs[i]);
        }
        lemma_kept_after_dot(d);
        assert((seq![seq!['.']] + segs).drop_last() =~= seq![seq!['.']] + d);
        assert((seq![seq!['.']] + segs).last() == segs.last());
        assert(is_normal(segs[segs.len() - 1]));
        assert(d.push(segs.last()) =~= segs);
    }
}

proof fn lemma_components_normal(p: Seq<char>)
    ensures
        forall|i: int|
            0 <= i < normal_components(p).len() ==> is_normal(#[trigger] normal_components(p)[i]),
{
    lemma_split_no_slash(p);
    lemma_kept_normal(split_slash(p));
}

/// A resolved request path never leads out of the root it is resolved
/// under: it starts with `.`, and each of its later components names an
/// entry, so none is `..`, empty, or a root.
pub proof fn lemma_resolved_path_confined(p: Seq<char>)
    ensures
        relative_path(seq!['.'], p).len() > 0,
        relative_path(seq!['.'], p)[0] == '.',
        split_slash(relative_path(seq!['.'], p))[0] == seq!['.'],
        forall|i: int|
            1 <= i < split_slash(relative_path(seq!['.'], p)).len() ==> is_normal(
                #[trigger] split_slash(relative_path(seq!['.'], p))[i],
            ),
{
    lemma_components_normal(p);
    let segs = normal_components(p);
    lemma_join_shape(segs);
    let sp = split_slash(relative_path(seq!['.'], p));
    assert forall|i: int| 1 <= i < sp.len() implies is_normal(#[trigger] sp[i]) by {
        assert(sp[i] == segs[i - 1]);
    }
}

/// Resolution is a function of the request path alone, and resolving an
/// already resolved path yields that same path.
pub proof fn lemma_resolution_idempotent(p: Seq<char>, q: Seq<char>)
    requires
        p == q,
    ensures
        relative_path(seq!['.'], p) == relative_path(seq!['.'], q),
        relative_path(seq!['.'], relative_path(seq!['.'], p)) == relative_path(seq!['.'], p),
{
    lemma_components_normal(p);
    let segs = normal_components(p);
    lemma_join_shape(segs);
    lemma_kept_after_dot(segs);
}

} // verus!
