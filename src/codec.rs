use crate::post::{Post, PostView};
use vstd::bytes::*;
use vstd::prelude::*;
use vstd::slice::slice_subrange;
use vstd::utf8::*;

verus! {

/// The largest number of bytes an encoded post may take.
pub const MAX_SIZE: usize = 1024;

pub open spec fn enc_u64(x: u64) -> Seq<u8> {
    spec_u64_to_le_bytes(x)
}

pub open spec fn enc_u32(x: u32) -> Seq<u8> {
    spec_u32_to_le_bytes(x)
}

/// A text: its byte length in four bytes, then its UTF-8 bytes.
pub open spec fn enc_str(s: Seq<char>) -> Seq<u8> {
    enc_u32(encode_utf8(s).len() as u32) + encode_utf8(s)
}

/// Texts one after another.
pub open spec fn enc_strs(s: Seq<Seq<char>>) -> Seq<u8>
    decreases s.len(),
{
    if s.len() == 0 {
        Seq::empty()
    } else {
        enc_strs(s.drop_last()) + enc_str(s.last())
    }
}

/// A list of texts: its count in four bytes, then the texts.
pub open spec fn enc_list(s: Seq<Seq<char>>) -> Seq<u8> {
    enc_u32(s.len() as u32) + enc_strs(s)
}

/// An optional time: a tag byte, then the time where there is one.
pub open spec fn enc_time(t: Option<u64>) -> Seq<u8> {
    match t {
        None => seq![0u8],
        Some(x) => seq![1u8] + enc_u64(x),
    }
}

/// The bytes that stand for a post.
pub open spec fn encoding(v: PostView) -> Seq<u8> {
    enc_u64(v.id) + enc_str(v.title) + enc_str(v.content) + enc_str(v.author) + enc_u64(
        v.created_at,
    ) + enc_time(v.updated_at) + enc_u32(v.likes) + enc_list(v.categories) + enc_list(v.liked_by)
}

pub open spec fn parse_u64(b: Seq<u8>, pos: int) -> Option<(u64, int)> {
    if 0 <= pos && pos + 8 <= b.len() {
        Some((spec_u64_from_le_bytes(b.subrange(pos, pos + 8)), pos + 8))
    } else {
        None
    }
}

pub open spec fn parse_u32(b: Seq<u8>, pos: int) -> Option<(u32, int)> {
    if 0 <= pos && pos + 4 <= b.len() {
        Some((spec_u32_from_le_bytes(b.subrange(pos, pos + 4)), pos + 4))
    } else {
        None
    }
}

pub open spec fn parse_str(b: Seq<u8>, pos: int) -> Option<(Seq<char>, int)> {
    match parse_u32(b, pos) {
        Some((n, p)) => {
            if p + n <= b.len() && valid_utf8(b.subrange(p, p + n)) {
                Some((decode_utf8(b.subrange(p, p + n)), p + n))
            } else {
                None
            }
        },
        None => None,
    }
}

pub open spec fn parse_strs(b: Seq<u8>, pos: int, k: nat) -> Option<(Seq<Seq<char>>, int)>
    decreases k,
{
    if k == 0 {
        Some((Seq::empty(), pos))
    } else {
        match parse_strs(b, pos, (k - 1) as nat) {
            Some((xs, p)) => match parse_str(b, p) {
                Some((x, q)) => Some((xs.push(x), q)),
                None => None,
            },
            None => None,
        }
    }
}

pub open spec fn parse_list(b: Seq<u8>, pos: int) -> Option<(Seq<Seq<char>>, int)> {
    match parse_u32(b, pos) {
        Some((n, p)) => parse_strs(b, p, n as nat),
        None => None,
    }
}

pub open spec fn parse_time(b: Seq<u8>, pos: int) -> Option<(Option<u64>, int)> {
    if 0 <= pos < b.len() && b[pos] == 0 {
        Some((None, pos + 1))
    } else if 0 <= pos < b.len() && b[pos] == 1 {
        match parse_u64(b, pos + 1) {
            Some((t, p)) => Some((Some(t), p)),
            None => None,
        }
    } else {
        None
    }
}

/// The post that bytes stand for, if they stand for a valid one and nothing
/// follows it.
pub open spec fn parse_post(b: Seq<u8>) -> Option<PostView> {
    match parse_u64(b, 0) {
        Some((id, p1)) => match parse_str(b, p1) {
            Some((title, p2)) => match parse_str(b, p2) {
                Some((content, p3)) => match parse_str(b, p3) {
                    Some((author, p4)) => match parse_u64(b, p4) {
                        Some((created_at, p5)) => match parse_time(b, p5) {
                            Some((updated_at, p6)) => match parse_u32(b, p6) {
                                Some((likes, p7)) => match parse_list(b, p7) {
                                    Some((categories, p8)) => match parse_list(b, p8) {
                                        Some((liked_by, p9)) => {
                                            let v = PostView {
                                                id,
                                                title,
                                                content,
                                                author,
                                                created_at,
                                                updated_at,
                                                likes,
                                                categories,
                                                liked_by,
                                            };
                                            if p9 == b.len() && v.valid() {
                                                Some(v)
                                            } else {
                                                None
                                            }
                                        },
                                        None => None,
                                    },
                                    None => None,
                                },
                                None => None,
                            },
                            None => None,
                        },
                        None => None,
                    },
                    None => None,
                },
                None => None,
            },
            None => None,
        },
        None => None,
    }
}

/// Appends `bytes` where the result stays within the bound.
fn push_bytes(buf: &mut Vec<u8>, bytes: &[u8]) -> (ok: bool)
    requires
        old(buf)@.len() <= MAX_SIZE,
    ensures
        ok ==> final(buf)@ == old(buf)@ + bytes@,
        ok ==> final(buf)@.len() <= MAX_SIZE,
        !ok ==> old(buf)@.len() + bytes@.len() > MAX_SIZE,
{
    if bytes.len() > MAX_SIZE - buf.len() {
        return false;
    }
    let ghost start = buf@;
    let mut i: usize = 0;
    while i < bytes.len()
        invariant
            i <= bytes@.len(),
            start.len() + bytes@.len() <= MAX_SIZE,
            buf@ == start + bytes@.subrange(0, i as int),
        decreases bytes@.len() - i,
    {
        buf.push(bytes[i]);
        i = i + 1;
        assert(buf@ =~= start + bytes@.subrange(0, i as int));
    }
    assert(bytes@.subrange(0, i as int) =~= bytes@);
    true
}

fn push_u64(buf: &mut Vec<u8>, x: u64) -> (ok: bool)
    requires
        old(buf)@.len() <= MAX_SIZE,
    ensures
        ok ==> final(buf)@ == old(buf)@ + enc_u64(x),
        ok ==> final(buf)@.len() <= MAX_SIZE,
        !ok ==> old(buf)@.len() + enc_u64(x).len() > MAX_SIZE,
{
    let bytes = u64_to_le_bytes(x);
    push_bytes(buf, bytes.as_slice())
}

fn push_u32(buf: &mut Vec<u8>, x: u32) -> (ok: bool)
    requires
        old(buf)@.len() <= MAX_SIZE,
    ensures
        ok ==> final(buf)@ == old(buf)@ + enc_u32(x),
        ok ==> final(buf)@.len() <= MAX_SIZE,
        !ok ==> old(buf)@.len() + enc_u32(x).len() > MAX_SIZE,
{
    let bytes = u32_to_le_bytes(x);
    push_bytes(buf, bytes.as_slice())
}

fn push_str(buf: &mut Vec<u8>, s: &str) -> (ok: bool)
    requires
        old(buf)@.len() <= MAX_SIZE,
    ensures
        ok ==> final(buf)@ == old(buf)@ + enc_str(s@),
        ok ==> final(buf)@.len() <= MAX_SIZE,
        !ok ==> old(buf)@.len() + enc_str(s@).len() > MAX_SIZE,
{
    proof {
        lemma_auto_spec_u32_to_from_le_bytes();
    }
    let bytes = s.as_bytes();
    let n = bytes.len();
    if n > MAX_SIZE {
        return false;
    }
    if !push_u32(buf, n as u32) {
        return false;
    }
    push_bytes(buf, bytes)
}

fn push_time(buf: &mut Vec<u8>, t: Option<u64>) -> (ok: bool)
    requires
        old(buf)@.len() <= MAX_SIZE,
    ensures
        ok ==> final(buf)@ == old(buf)@ + enc_time(t),
        ok ==> final(buf)@.len() <= MAX_SIZE,
        !ok ==> old(buf)@.len() + enc_time(t).len() > MAX_SIZE,
{
    proof {
        lemma_auto_spec_u64_to_from_le_bytes();
    }
    match t {
        None => {
            if buf.len() >= MAX_SIZE {
                return false;
            }
            buf.push(0u8);
            true
        },
        Some(x) => {
            if buf.len() >= MAX_SIZE {
                return false;
            }
            let ghost start = buf@;
            buf.push(1u8);
            let ok = push_u64(buf, x);
            assert(ok ==> buf@ =~= start + (seq![1u8] + enc_u64(x)));
            ok
        },
    }
}

pub(crate) proof fn lemma_enc_strs_prefix(s: Seq<Seq<char>>, j: int)
    requires
        0 <= j <= s.len(),
    ensures
        enc_strs(s.take(j)).len() <= enc_strs(s).len(),
        s.len() <= enc_strs(s).len() / 4,
    decreases s.len(),
{
    lemma_auto_spec_u32_to_from_le_bytes();
    if s.len() == 0 {
        assert(s.take(j) =~= s);
    } else if j == s.len() {
        assert(s.take(j) =~= s);
        lemma_enc_strs_prefix(s.drop_last(), j - 1);
    } else {
        assert(s.drop_last().take(j) =~= s.take(j));
        lemma_enc_strs_prefix(s.drop_last(), j);
    }
}

fn push_list(buf: &mut Vec<u8>, items: &Vec<String>) -> (ok: bool)
    requires
        old(buf)@.len() <= MAX_SIZE,
    ensures
        ok ==> final(buf)@ == old(buf)@ + enc_list(items.deep_view()),
        ok ==> final(buf)@.len() <= MAX_SIZE,
        !ok ==> old(buf)@.len() + enc_list(items.deep_view()).len() > MAX_SIZE,
{
    let ghost s = items.deep_view();
    proof {
        lemma_auto_spec_u32_to_from_le_bytes();
        lemma_enc_strs_prefix(s, 0);
    }
    let n = items.len();
    if n > MAX_SIZE {
        return false;
    }
    let ghost start = buf@;
    if !push_u32(buf, n as u32) {
        return false;
    }
    let mut i: usize = 0;
    while i < n
        invariant
            n == items@.len(),
            n <= MAX_SIZE,
            start == old(buf)@,
            s == items.deep_view(),
            i <= n,
            buf@ == start + enc_u32(n as u32) + enc_strs(s.take(i as int)),
            buf@.len() <= MAX_SIZE,
        decreases n - i,
    {
        let ghost before = buf@;
        let ok = push_str(buf, items[i].as_str());
        assert(s[i as int] == items@[i as int]@);
        assert(s.take(i + 1).drop_last() =~= s.take(i as int));
        if !ok {
            proof {
                lemma_enc_strs_prefix(s, i + 1);
                assert(s.take(i + 1).last() == s[i as int]);
                assert(enc_strs(s.take(i + 1)) == enc_strs(s.take(i as int)) + enc_str(s[i as int]));
            }
            return false;
        }
        assert(buf@ =~= start + enc_u32(n as u32) + enc_strs(s.take(i + 1)));
        i = i + 1;
    }
    assert(s.take(n as int) =~= s);
    assert(buf@ =~= start + enc_list(s));
    true
}

/// The bytes that stand for `p`, where they fit within the bound.
pub fn encode(p: &Post) -> (r: Option<Vec<u8>>)
    ensures
        r is Some <==> encoding(p@).len() <= MAX_SIZE,
        r matches Some(b) ==> b@ == encoding(p@),
{
    proof {
        lemma_auto_spec_u64_to_from_le_bytes();
        lemma_auto_spec_u32_to_from_le_bytes();
    }
    let ghost v = p@;
    let mut buf: Vec<u8> = Vec::new();
    if !push_u64(&mut buf, p.id) {
        return None;
    }
    if !push_str(&mut buf, p.title.as_str()) {
        return None;
    }
    if !push_str(&mut buf, p.content.as_str()) {
        return None;
    }
    if !push_str(&mut buf, p.author.as_str()) {
        return None;
    }
    if !push_u64(&mut buf, p.created_at) {
        return None;
    }
    if !push_time(&mut buf, p.updated_at) {
        return None;
    }
    if !push_u32(&mut buf, p.likes) {
        return None;
    }
    if !push_list(&mut buf, &p.categories) {
        return None;
    }
    if !push_list(&mut buf, &p.liked_by) {
        return None;
    }
    Some(buf)
}

/// Relies on std::str::from_utf8: the text the bytes encode, where they are
/// valid UTF-8.
#[verifier::external_body]
fn utf8_text(bytes: &[u8]) -> (r: Option<String>)
    ensures
        r is Some <==> valid_utf8(bytes@),
        r matches Some(t) ==> t@ == decode_utf8(bytes@),
{
    match std::str::from_utf8(bytes) {
        Ok(t) => Some(t.to_string()),
        Err(_) => None,
    }
}

fn read_u64(b: &[u8], pos: usize) -> (r: Option<(u64, usize)>)
    ensures
        r matches Some((x, p)) ==> parse_u64(b@, pos as int) == Some((x, p as int)),
        r is None ==> parse_u64(b@, pos as int) is None,
{
    if pos > b.len() || b.len() - pos < 8 {
        return None;
    }
    let x = u64_from_le_bytes(slice_subrange(b, pos, pos + 8));
    Some((x, pos + 8))
}

fn read_u32(b: &[u8], pos: usize) -> (r: Option<(u32, usize)>)
    ensures
        r matches Some((x, p)) ==> parse_u32(b@, pos as int) == Some((x, p as int)),
        r is None ==> parse_u32(b@, pos as int) is None,
{
    if pos > b.len() || b.len() - pos < 4 {
        return None;
    }
    let x = u32_from_le_bytes(slice_subrange(b, pos, pos + 4));
    Some((x, pos + 4))
}

fn read_str(b: &[u8], pos: usize) -> (r: Option<(String, usize)>)
    ensures
        r matches Some((t, p)) ==> parse_str(b@, pos as int) == Some((t@, p as int)),
        r is None ==> parse_str(b@, pos as int) is None,
{
    let (n, p) = match read_u32(b, pos) {
        Some(x) => x,
        None => return None,
    };
    let n = n as usize;
    if n > b.len() - p {
        return None;
    }
    match utf8_text(slice_subrange(b, p, p + n)) {
        Some(t) => Some((t, p + n)),
        None => None,
    }
}

proof fn lemma_parse_strs_fails_on(b: Seq<u8>, pos: int, k: nat, m: nat)
    requires
        k <= m,
        parse_strs(b, pos, k) is None,
    ensures
        parse_strs(b, pos, m) is None,
    decreases m,
{
    if k < m {
        lemma_parse_strs_fails_on(b, pos, k, (m - 1) as nat);
    }
}

fn read_list(b: &[u8], pos: usize) -> (r: Option<(Vec<String>, usize)>)
    ensures
        r matches Some((v, p)) ==> parse_list(b@, pos as int) == Some((v.deep_view(), p as int)),
        r is None ==> parse_list(b@, pos as int) is None,
{
    let (n, p) = match read_u32(b, pos) {
        Some(x) => x,
        None => return None,
    };
    let mut items: Vec<String> = Vec::new();
    let mut q: usize = p;
    let mut i: u32 = 0;
    while i < n
        invariant
            i <= n,
            parse_u32(b@, pos as int) == Some((n, p as int)),
            parse_strs(b@, p as int, i as nat) == Some((items.deep_view(), q as int)),
        decreases n - i,
    {
        let (t, q2) = match read_str(b, q) {
            Some(x) => x,
            None => {
                proof {
                    lemma_parse_strs_fails_on(b@, p as int, (i + 1) as nat, n as nat);
                }
                return None;
            },
        };
        let ghost prev = items.deep_view();
        items.push(t);
        assert(items.deep_view() =~= prev.push(t@));
        q = q2;
        i = i + 1;
    }
    Some((items, q))
}

fn read_time(b: &[u8], pos: usize) -> (r: Option<(Option<u64>, usize)>)
    ensures
        r matches Some((t, p)) ==> parse_time(b@, pos as int) == Some((t, p as int)),
        r is None ==> parse_time(b@, pos as int) is None,
{
    if pos >= b.len() {
        return None;
    }
    if b[pos] == 0 {
        Some((None, pos + 1))
    } else if b[pos] == 1 {
        match read_u64(b, pos + 1) {
            Some((t, p)) => Some((Some(t), p)),
            None => None,
        }
    } else {
        None
    }
}

/// Whether no identity stands twice in the ledger.
fn all_distinct(v: &Vec<String>) -> (r: bool)
    ensures
        r == v.deep_view().no_duplicates(),
{
    let ghost s = v.deep_view();
    let mut i: usize = 0;
    while i < v.len()
        invariant
            i <= v@.len(),
            s == v.deep_view(),
            forall|a: int, c: int| 0 <= a < c < i ==> s[a] != s[c],
        decreases v@.len() - i,
    {
        let mut j: usize = 0;
        while j < i
            invariant
                j <= i < v@.len(),
                s == v.deep_view(),
                forall|a: int, c: int| 0 <= a < c < i ==> s[a] != s[c],
                forall|a: int| 0 <= a < j ==> s[a] != s[i as int],
            decreases i - j,
        {
            if v[j] == v[i] {
                assert(s[j as int] == s[i as int]);
                return false;
            }
            j = j + 1;
        }
        i = i + 1;
    }
    true
}

/// The post that `b` stands for, if it stands for a valid one. Malformed
/// bytes are a fatal decoding failure, reported as `None` rather than a
/// panic; the store answers them with `Error::Corrupted`.
pub fn decode(b: &[u8]) -> (r: Option<Post>)
    ensures
        r matches Some(p) ==> parse_post(b@) == Some(p@),
        r is None ==> parse_post(b@) is None,
{
    let (id, p1) = match read_u64(b, 0) {
        Some(x) => x,
        None => return None,
    };
    let (title, p2) = match read_str(b, p1) {
        Some(x) => x,
        None => return None,
    };
    let (content, p3) = match read_str(b, p2) {
        Some(x) => x,
        None => return None,
    };
    let (author, p4) = match read_str(b, p3) {
        Some(x) => x,
        None => return None,
    };
    let (created_at, p5) = match read_u64(b, p4) {
        Some(x) => x,
        None => return None,
    };
    let (updated_at, p6) = match read_time(b, p5) {
        Some(x) => x,
        None => return None,
    };
    let (likes, p7) = match read_u32(b, p6) {
        Some(x) => x,
        None => return None,
    };
    let (categories, p8) = match read_list(b, p7) {
        Some(x) => x,
        None => return None,
    };
    let (liked_by, p9) = match read_list(b, p8) {
        Some(x) => x,
        None => return None,
    };
    if p9 != b.len() || likes as usize != liked_by.len() || !all_distinct(&liked_by) {
        return None;
    }
    Some(Post { id, title, content, author, created_at, updated_at, likes, categories, liked_by })
}

proof fn lemma_split(b: Seq<u8>, pre: Seq<u8>, x: Seq<u8>)
    requires
        pre.len() + x.len() <= b.len(),
        b.subrange(0, (pre.len() + x.len()) as int) == pre + x,
    ensures
        b.subrange(0, pre.len() as int) == pre,
        b.subrange(pre.len() as int, (pre.len() + x.len()) as int) == x,
{
    assert(b.subrange(0, pre.len() as int) =~= (pre + x).subrange(0, pre.len() as int));
    assert(b.subrange(pre.len() as int, (pre.len() + x.len()) as int) =~= (pre + x).subrange(pre.len() as int, (pre.len() + x.len()) as int, ));
}

proof fn lemma_parse_u64_at(b: Seq<u8>, pos: int, x: u64)
    requires
        0 <= pos,
        pos + enc_u64(x).len() <= b.len(),
        b.subrange(pos, (pos + enc_u64(x).len()) as int) == enc_u64(x),
    ensures
        enc_u64(x).len() == 8,
        parse_u64(b, pos) == Some((x, pos + 8)),
{
    lemma_auto_spec_u64_to_from_le_bytes();
}

proof fn lemma_parse_u32_at(b: Seq<u8>, pos: int, x: u32)
    requires
        0 <= pos,
        pos + enc_u32(x).len() <= b.len(),
        b.subrange(pos, (pos + enc_u32(x).len()) as int) == enc_u32(x),
    ensures
        enc_u32(x).len() == 4,
        parse_u32(b, pos) == Some((x, pos + 4)),
{
    lemma_auto_spec_u32_to_from_le_bytes();
}

proof fn lemma_parse_str_at(b: Seq<u8>, pos: int, s: Seq<char>)
    requires
        0 <= pos,
        pos + enc_str(s).len() <= b.len(),
        b.subrange(pos, (pos + enc_str(s).len()) as int) == enc_str(s),
        enc_str(s).len() <= MAX_SIZE,
    ensures
        parse_str(b, pos) == Some((s, pos + enc_str(s).len())),
{
    lemma_auto_spec_u32_to_from_le_bytes();
    let e = encode_utf8(s);
    let h = enc_u32(e.len() as u32);
    let t = b.subrange(pos, b.len() as int);
    assert(t.subrange(0, (h.len() + e.len()) as int) =~= b.subrange(pos, (pos + enc_str(s).len()) as int));
    lemma_split(t, h, e);
    assert(b.subrange(pos, pos + 4) =~= t.subrange(0, 4));
    lemma_parse_u32_at(b, pos, e.len() as u32);
    assert(b.subrange(pos + 4, (pos + 4 + e.len()) as int) =~= t.subrange(4, (4 + e.len()) as int));
    encode_utf8_valid_utf8(s);
    encode_utf8_decode_utf8(s);
}

proof fn lemma_parse_strs_at(b: Seq<u8>, pos: int, s: Seq<Seq<char>>)
    requires
        0 <= pos,
        pos + enc_strs(s).len() <= b.len(),
        b.subrange(pos, (pos + enc_strs(s).len()) as int) == enc_strs(s),
        enc_strs(s).len() <= MAX_SIZE,
    ensures
        parse_strs(b, pos, s.len()) == Some((s, pos + enc_strs(s).len())),
    decreases s.len(),
{
    if s.len() > 0 {
        let init = s.drop_last();
        let pre = enc_strs(init);
        let x = enc_str(s.last());
        let t = b.subrange(pos, b.len() as int);
        assert(t.subrange(0, (pre.len() + x.len()) as int) =~= b.subrange(pos, (pos + enc_strs(s).len()) as int));
        lemma_split(t, pre, x);
        assert(b.subrange(pos, (pos + pre.len()) as int) =~= t.subrange(0, pre.len() as int));
        assert(b.subrange((pos + pre.len()) as int, (pos + pre.len() + x.len()) as int) =~= t.subrange(pre.len() as int, (pre.len() + x.len()) as int, ));
        lemma_parse_strs_at(b, pos, init);
        lemma_parse_str_at(b, pos + pre.len(), s.last());
        assert(init.push(s.last()) =~= s);
    }
}

proof fn lemma_parse_list_at(b: Seq<u8>, pos: int, s: Seq<Seq<char>>)
    requires
        0 <= pos,
        pos + enc_list(s).len() <= b.len(),
        b.subrange(pos, (pos + enc_list(s).len()) as int) == enc_list(s),
        enc_list(s).len() <= MAX_SIZE,
    ensures
        parse_list(b, pos) == Some((s, pos + enc_list(s).len())),
{
    lemma_auto_spec_u32_to_from_le_bytes();
    lemma_enc_strs_prefix(s, 0);
    let h = enc_u32(s.len() as u32);
    let e = enc_strs(s);
    let t = b.subrange(pos, b.len() as int);
    assert(t.subrange(0, (h.len() + e.len()) as int) =~= b.subrange(pos, (pos + enc_list(s).len()) as int));
    lemma_split(t, h, e);
    assert(b.subrange(pos, pos + 4) =~= t.subrange(0, 4));
    lemma_parse_u32_at(b, pos, s.len() as u32);
    assert(b.subrange(pos + 4, (pos + 4 + e.len()) as int) =~= t.subrange(4, (4 + e.len()) as int));
    lemma_parse_strs_at(b, pos + 4, s);
}

proof fn lemma_parse_time_at(b: Seq<u8>, pos: int, x: Option<u64>)
    requires
        0 <= pos,
        pos + enc_time(x).len() <= b.len(),
        b.subrange(pos, (pos + enc_time(x).len()) as int) == enc_time(x),
    ensures
        parse_time(b, pos) == Some((x, pos + enc_time(x).len())),
{
    lemma_auto_spec_u64_to_from_le_bytes();
    assert(b[pos] == b.subrange(pos, (pos + enc_time(x).len()) as int)[0]);
    if let Some(t) = x {
        assert(b.subrange(pos + 1, pos + 9) =~= b.subrange(pos, pos + 9).subrange(1, 9));
        assert(b.subrange(pos, pos + 9).subrange(1, 9) =~= enc_u64(t));
        lemma_parse_u64_at(b, pos + 1, t);
    }
}

/// Decoding undoes encoding: the bytes of a valid post that fits within the
/// bound decode to that same post.
pub proof fn lemma_decode_encode(v: PostView)
    requires
        v.valid(),
        encoding(v).len() <= MAX_SIZE,
    ensures
        parse_post(encoding(v)) == Some(v),
{
    lemma_auto_spec_u64_to_from_le_bytes();
    lemma_auto_spec_u32_to_from_le_bytes();
    let b = encoding(v);
    let q1 = enc_u64(v.id);
    let q2 = q1 + enc_str(v.title);
    let q3 = q2 + enc_str(v.content);
    let q4 = q3 + enc_str(v.author);
    let q5 = q4 + enc_u64(v.created_at);
    let q6 = q5 + enc_time(v.updated_at);
    let q7 = q6 + enc_u32(v.likes);
    let q8 = q7 + enc_list(v.categories);
    assert(b.subrange(0, b.len() as int) =~= b);
    lemma_split(b, q8, enc_list(v.liked_by));
    lemma_split(b, q7, enc_list(v.categories));
    lemma_split(b, q6, enc_u32(v.likes));
    lemma_split(b, q5, enc_time(v.updated_at));
    lemma_split(b, q4, enc_u64(v.created_at));
    lemma_split(b, q3, enc_str(v.author));
    lemma_split(b, q2, enc_str(v.content));
    lemma_split(b, q1, enc_str(v.title));
    assert(b.subrange(0, q1.len() as int) == q1);
    lemma_parse_u64_at(b, 0, v.id);
    lemma_parse_str_at(b, q1.len() as int, v.title);
    lemma_parse_str_at(b, q2.len() as int, v.content);
    lemma_parse_str_at(b, q3.len() as int, v.author);
    lemma_parse_u64_at(b, q4.len() as int, v.created_at);
    lemma_parse_time_at(b, q5.len() as int, v.updated_at);
    lemma_parse_u32_at(b, q6.len() as int, v.likes);
    lemma_parse_list_at(b, q7.len() as int, v.categories);
    lemma_parse_list_at(b, q8.len() as int, v.liked_by);
}

} // verus!
