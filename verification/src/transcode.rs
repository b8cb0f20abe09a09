//! The cache of generated `.mkv` files: the key of a source file, the
//! paths of the cached and scratch files, the ffmpeg command lines, and the
//! decisions of the generation, step by step.
use vstd::prelude::*;

use crate::media::{FileTime, MediaItem};
use crate::path::{render, rendered, valid_name, Component, FsPath};
use crate::text::{chars_of, decimal, push_char, push_chars, push_decimal};

verus! {

/// The SHA-256 digest of a byte string.
pub uninterp spec fn sha256_digest(data: Seq<u8>) -> Seq<u8>;

/// `sha2::Sha256::digest`: the SHA-256 digest of `data`, which is 32 bytes
/// long (the output size of `Sha256`).  Which bytes those are is named, not
/// stated.
#[verifier::external_body]
fn sha256(data: &[u8]) -> (d: Vec<u8>)
    ensures
        d@ == sha256_digest(data@),
        d@.len() == 32,
{
    <sha2::Sha256 as sha2::Digest>::digest(data).to_vec()
}

/// The `n` low bytes of `x`, least significant first.
pub open spec fn le_bytes(x: nat, n: nat) -> Seq<u8>
    decreases n,
{
    if n == 0 {
        seq![]
    } else {
        seq![(x % 256) as u8] + le_bytes(x / 256, (n - 1) as nat)
    }
}

/// The time since the epoch as seconds and nanoseconds; zero for a time
/// before the epoch.
pub open spec fn since_epoch(t: FileTime) -> (u64, u32) {
    if t.before_epoch { (0, 0) } else { (t.secs, t.nanos) }
}

/// The bytes that a cache key hashes: the path's UTF-8 text, a zero byte,
/// the size, a zero byte, the seconds and the nanoseconds since the epoch,
/// integers in little-endian order.
pub open spec fn spec_cache_message(path_text: Seq<char>, size: u64, mtime: FileTime) -> Seq<u8> {
    let (secs, nanos) = since_epoch(mtime);
    vstd::utf8::encode_utf8(path_text) + seq![0u8] + le_bytes(size as nat, 8) + seq![0u8]
        + le_bytes(secs as nat, 8) + le_bytes(nanos as nat, 4)
}

/// The lower-case hexadecimal digit of `d`.
pub open spec fn hex_char(d: nat) -> char {
    if d < 10 {
        crate::text::digit_char(d)
    } else if d == 10 { 'a' }
    else if d == 11 { 'b' }
    else if d == 12 { 'c' }
    else if d == 13 { 'd' }
    else if d == 14 { 'e' }
    else { 'f' }
}

/// Two lower-case hexadecimal digits per byte, high half first.
pub open spec fn spec_hex_lower(bytes: Seq<u8>) -> Seq<char>
    decreases bytes.len(),
{
    if bytes.len() == 0 {
        seq![]
    } else {
        spec_hex_lower(bytes.drop_last()) + seq![
            hex_char((bytes.last() / 16) as nat),
            hex_char((bytes.last() % 16) as nat),
        ]
    }
}

/// The cache key of a source file: the hexadecimal SHA-256 digest of the
/// text of its path, its size and modification time.
pub open spec fn spec_cache_key(path_text: Seq<char>, size: u64, mtime: FileTime) -> Seq<char> {
    spec_hex_lower(sha256_digest(spec_cache_message(path_text, size, mtime)))
}

fn push_le_bytes(v: &mut Vec<u8>, x: u64, n: u8)
    requires
        n <= 8,
    ensures
        final(v)@ == old(v)@ + le_bytes(x as nat, n as nat),
    decreases n,
{
    if n > 0 {
        v.push((x % 256) as u8);
        let ghost mid = v@;
        push_le_bytes(v, x / 256, n - 1);
        assert(le_bytes(x as nat, n as nat) =~= seq![(x % 256) as u8] + le_bytes((x / 256) as nat, (n - 1) as nat));
        assert(v@ =~= old(v)@ + le_bytes(x as nat, n as nat));
    } else {
        assert(v@ =~= old(v)@ + le_bytes(x as nat, n as nat));
    }
}

/// The bytes that the cache key of a file hashes.
pub fn cache_message(path: &FsPath, size: u64, mtime: FileTime) -> (m: Vec<u8>)
    ensures
        m@ == spec_cache_message(path.text@, size, mtime),
{
    let bytes = path.text.as_str().as_bytes();
    let mut m = vstd::slice::slice_to_vec(bytes);
    m.push(0);
    push_le_bytes(&mut m, size, 8);
    m.push(0);
    let (secs, nanos): (u64, u32) = if mtime.before_epoch { (0, 0) } else { (mtime.secs, mtime.nanos) };
    push_le_bytes(&mut m, secs, 8);
    push_le_bytes(&mut m, nanos as u64, 4);
    assert(m@ =~= spec_cache_message(path.text@, size, mtime));
    m
}

fn hex_digit(d: u8) -> (c: char)
    requires
        d < 16,
    ensures
        c == hex_char(d as nat),
{
    if d < 10 {
        crate::text::digit_to_char(d)
    } else if d == 10 { 'a' }
    else if d == 11 { 'b' }
    else if d == 12 { 'c' }
    else if d == 13 { 'd' }
    else if d == 14 { 'e' }
    else { 'f' }
}

/// The lower-case hexadecimal text of `bytes`, two digits per byte.
pub fn hex_lower(bytes: &[u8]) -> (s: String)
    ensures
        s@ == spec_hex_lower(bytes@),
{
    let mut s = String::new();
    for i in 0..bytes.len()
        invariant
            s@ == spec_hex_lower(bytes@.take(i as int)),
    {
        let b = bytes[i];
        push_char(&mut s, hex_digit(b / 16));
        push_char(&mut s, hex_digit(b % 16));
        assert(bytes@.take(i + 1).drop_last() =~= bytes@.take(i as int));
        assert(bytes@.take(i + 1).last() == b);
    }
    assert(bytes@.take(bytes@.len() as int) =~= bytes@);
    s
}

/// The cache key of a source file: SHA-256 over its path, size and
/// modification time, in lower-case hexadecimal.
pub fn cache_key(path: &FsPath, size: u64, mtime: FileTime) -> (k: String)
    ensures
        k@ == spec_cache_key(path.text@, size, mtime),
        k@.len() == 64,
        valid_name(k@.push('.') + seq!['m', 'k', 'v']),
{
    let m = cache_message(path, size, mtime);
    let d = sha256(m.as_slice());
    proof {
        lemma_cache_key_shape(path.text@, size, mtime);
    }
    hex_lower(d.as_slice())
}

pub proof fn lemma_hex_lower_len(bytes: Seq<u8>)
    ensures
        spec_hex_lower(bytes).len() == 2 * bytes.len(),
        forall|i: int| 0 <= i < spec_hex_lower(bytes).len() ==> {
            let c = #[trigger] spec_hex_lower(bytes)[i];
            ('0' <= c <= '9') || ('a' <= c <= 'f')
        },
    decreases bytes.len(),
{
    if bytes.len() > 0 {
        lemma_hex_lower_len(bytes.drop_last());
        let h = spec_hex_lower(bytes);
        let p = spec_hex_lower(bytes.drop_last());
        assert forall|i: int| 0 <= i < h.len() implies {
            let c = #[trigger] h[i];
            ('0' <= c <= '9') || ('a' <= c <= 'f')
        } by {
            if i < p.len() {
                assert(h[i] == p[i]);
            }
        }
    }
}

/// A cache key is 64 lower-case hexadecimal digits, whatever the digest.
pub proof fn lemma_cache_key_shape(path: Seq<char>, size: u64, mtime: FileTime)
    requires
        sha256_digest(spec_cache_message(path, size, mtime)).len() == 32,
    ensures
        spec_cache_key(path, size, mtime).len() == 64,
        valid_name(spec_cache_key(path, size, mtime).push('.') + seq!['m', 'k', 'v']),
{
    let d = sha256_digest(spec_cache_message(path, size, mtime));
    lemma_hex_lower_len(d);
    let k = spec_cache_key(path, size, mtime);
    let n = k.push('.') + seq!['m', 'k', 'v'];
    assert forall|i: int| 0 <= i < n.len() implies n[i] != '/' by {
        if i < k.len() {
            assert(n[i] == k[i]);
        }
    }
    assert(n.len() == 68);
}

pub proof fn lemma_le_bytes_len(x: nat, n: nat)
    ensures
        le_bytes(x, n).len() == n,
    decreases n,
{
    if n > 0 {
        lemma_le_bytes_len(x / 256, (n - 1) as nat);
    }
}

pub proof fn lemma_le_bytes_injective(x: nat, y: nat, n: nat)
    requires
        x < pow256(n),
        y < pow256(n),
        le_bytes(x, n) == le_bytes(y, n),
    ensures
        x == y,
    decreases n,
{
    if n > 0 {
        let a = le_bytes(x, n);
        let b = le_bytes(y, n);
        assert(a[0] == b[0]);
        assert(a.subrange(1, a.len() as int) =~= le_bytes(x / 256, (n - 1) as nat));
        assert(b.subrange(1, b.len() as int) =~= le_bytes(y / 256, (n - 1) as nat));
        assert(x / 256 < pow256((n - 1) as nat)) by {
            assert(pow256(n) == 256 * pow256((n - 1) as nat));
        }
        assert(y / 256 < pow256((n - 1) as nat)) by {
            assert(pow256(n) == 256 * pow256((n - 1) as nat));
        }
        lemma_le_bytes_injective(x / 256, y / 256, (n - 1) as nat);
        assert(x == 256 * (x / 256) + x % 256);
        assert(y == 256 * (y / 256) + y % 256);
    } else {
        assert(pow256(0) == 1);
    }
}

pub open spec fn pow256(n: nat) -> nat
    decreases n,
{
    if n == 0 { 1 } else { 256 * pow256((n - 1) as nat) }
}

/// Two files whose key messages are equal have the same path text, the same
/// size and the same time since the epoch: a key can only repeat where the
/// digest collides.
pub proof fn lemma_cache_message_injective(
    p1: Seq<char>, s1: u64, t1: FileTime,
    p2: Seq<char>, s2: u64, t2: FileTime,
)
    requires
        spec_cache_message(p1, s1, t1) == spec_cache_message(p2, s2, t2),
    ensures
        p1 == p2,
        s1 == s2,
        since_epoch(t1) == since_epoch(t2),
{
    let (a1, b1) = since_epoch(t1);
    let (a2, b2) = since_epoch(t2);
    lemma_le_bytes_len(s1 as nat, 8);
    lemma_le_bytes_len(s2 as nat, 8);
    lemma_le_bytes_len(a1 as nat, 8);
    lemma_le_bytes_len(a2 as nat, 8);
    lemma_le_bytes_len(b1 as nat, 4);
    lemma_le_bytes_len(b2 as nat, 4);
    let m1 = spec_cache_message(p1, s1, t1);
    let m2 = spec_cache_message(p2, s2, t2);
    let e1 = vstd::utf8::encode_utf8(p1);
    let e2 = vstd::utf8::encode_utf8(p2);
    let tail1 = seq![0u8] + le_bytes(s1 as nat, 8) + seq![0u8] + le_bytes(a1 as nat, 8) + le_bytes(b1 as nat, 4);
    let tail2 = seq![0u8] + le_bytes(s2 as nat, 8) + seq![0u8] + le_bytes(a2 as nat, 8) + le_bytes(b2 as nat, 4);
    assert(m1 =~= e1 + tail1);
    assert(m2 =~= e2 + tail2);
    assert(tail1.len() == 22);
    assert(tail2.len() == 22);
    assert(e1.len() == e2.len());
    assert((e1 + tail1).subrange(0, e1.len() as int) =~= e1);
    assert((e2 + tail2).subrange(0, e2.len() as int) =~= e2);
    assert(e1 == e2);
    vstd::utf8::encode_utf8_decode_utf8(p1);
    vstd::utf8::encode_utf8_decode_utf8(p2);
    assert((e1 + tail1).subrange(e1.len() as int, m1.len() as int) =~= tail1);
    assert((e2 + tail2).subrange(e2.len() as int, m2.len() as int) =~= tail2);
    assert(tail1 == tail2);
    assert(tail1.subrange(1, 9) =~= le_bytes(s1 as nat, 8));
    assert(tail2.subrange(1, 9) =~= le_bytes(s2 as nat, 8));
    assert(tail1.subrange(10, 18) =~= le_bytes(a1 as nat, 8));
    assert(tail2.subrange(10, 18) =~= le_bytes(a2 as nat, 8));
    assert(tail1.subrange(18, 22) =~= le_bytes(b1 as nat, 4));
    assert(tail2.subrange(18, 22) =~= le_bytes(b2 as nat, 4));
    assert(pow256(4) == 0x1_0000_0000) by {
        reveal_with_fuel(pow256, 5);
    }
    assert(pow256(8) == 0x1_0000_0000_0000_0000) by {
        reveal_with_fuel(pow256, 9);
    }
    lemma_le_bytes_injective(s1 as nat, s2 as nat, 8);
    lemma_le_bytes_injective(a1 as nat, a2 as nat, 8);
    lemma_le_bytes_injective(b1 as nat, b2 as nat, 4);
}

/// A `String` holding the text of `t`.
fn owned(t: &str) -> (r: String)
    ensures
        r@ == t@,
{
    let mut r = String::new();
    crate::text::push_str(&mut r, t);
    assert(Seq::<char>::empty() + t@ =~= t@);
    r
}

/// The name of the cached file of a key.
pub open spec fn cached_name(key: Seq<char>) -> Seq<char> {
    key.push('.') + seq!['m', 'k', 'v']
}

/// The cached `.mkv` of an item: `{cache_dir}/{key}.mkv`.
pub open spec fn spec_cached_path(cache_dir: Seq<Component>, item: MediaItem) -> Seq<Component> {
    cache_dir.push(
        Component::Normal(cached_name(spec_cache_key(item.source_path.text@, item.size, item.mtime))),
    )
}

/// The path of the cached `.mkv` of an item.
fn cached_file(cache_dir: &FsPath, item: &MediaItem) -> (r: FsPath)
    ensures
        r@ == spec_cached_path(cache_dir@, *item),
        rendered(r),
{
    let key = cache_key(&item.source_path, item.size, item.mtime);
    let mut name = key;
    push_char(&mut name, '.');
    push_chars(&mut name, &['m', 'k', 'v']);
    assert(name@ =~= cached_name(spec_cache_key(item.source_path.text@, item.size, item.mtime)));
    cache_dir.join_name(name)
}

/// The cache of generated `.mkv` files, kept in one directory.
pub struct TranscodeCache {
    pub cache_dir: FsPath,
}

impl TranscodeCache {
    pub fn new(cache_dir: FsPath) -> (c: TranscodeCache)
        ensures
            same_path(c.cache_dir, cache_dir),
    {
        TranscodeCache { cache_dir }
    }

    /// The path of the cached `.mkv` of `item`: `{cache_dir}/{key}.mkv`.
    pub fn cached_path(&self, item: &MediaItem) -> (r: FsPath)
        ensures
            r@ == spec_cached_path(self.cache_dir@, *item),
            rendered(r),
    {
        cached_file(&self.cache_dir, item)
    }
}

/// The name `.{key}.{pid}.{nanos}{tail}` of a scratch file.
pub open spec fn scratch_name(key: Seq<char>, pid: u32, nanos: u128, tail: Seq<char>) -> Seq<char> {
    seq!['.'] + key + seq!['.'] + decimal(pid as nat) + seq!['.'] + decimal(nanos as nat) + tail
}

pub open spec fn cover_tail() -> Seq<char> {
    seq!['.', 'c', 'o', 'v', 'e', 'r', '.', 'j', 'p', 'g']
}

pub open spec fn black_tail() -> Seq<char> {
    seq!['.', 'b', 'l', 'a', 'c', 'k', '.', 'j', 'p', 'g']
}

pub open spec fn tmp_tail() -> Seq<char> {
    seq!['.', 't', 'm', 'p', '.', 'm', 'k', 'v']
}

/// The three scratch files of one generation: the extracted cover, the
/// black fallback image and the output being written.
pub struct Scratch {
    pub cover: FsPath,
    pub black: FsPath,
    pub tmp_output: FsPath,
}

/// `s` holds the scratch files for `key`, the process id and the time.
pub open spec fn scratch_for(s: Scratch, cache_dir: Seq<Component>, key: Seq<char>, pid: u32, nanos: u128) -> bool {
    &&& s.cover@ == cache_dir.push(Component::Normal(scratch_name(key, pid, nanos, cover_tail())))
    &&& s.black@ == cache_dir.push(Component::Normal(scratch_name(key, pid, nanos, black_tail())))
    &&& s.tmp_output@ == cache_dir.push(Component::Normal(scratch_name(key, pid, nanos, tmp_tail())))
    &&& rendered(s.cover)
    &&& rendered(s.black)
    &&& rendered(s.tmp_output)
}

proof fn lemma_scratch_name_valid(key: Seq<char>, pid: u32, nanos: u128, tail: Seq<char>)
    requires
        !key.contains('/'),
        !tail.contains('/'),
    ensures
        valid_name(scratch_name(key, pid, nanos, tail)),
{
    let a = decimal(pid as nat);
    let b = decimal(nanos as nat);
    let n = scratch_name(key, pid, nanos, tail);
    assert forall|j: int| 0 <= j < a.len() implies a[j] != '/' by {
        crate::media::lemma_decimal_digits(pid as nat, j);
    }
    assert forall|j: int| 0 <= j < b.len() implies b[j] != '/' by {
        crate::media::lemma_decimal_digits(nanos as nat, j);
    }
    crate::text::lemma_decimal_nonempty(pid as nat);
    assert forall|j: int| 0 <= j < n.len() implies n[j] != '/' by {
        if j == 0 {
        } else if j < 1 + key.len() {
            assert(n[j] == key[j - 1]);
        } else if j == 1 + key.len() {
        } else if j < 2 + key.len() + a.len() {
            assert(n[j] == a[j - 2 - key.len()]);
        } else if j == 2 + key.len() + a.len() {
        } else if j < 3 + key.len() + a.len() + b.len() {
            assert(n[j] == b[j - 3 - key.len() - a.len()]);
        } else {
            assert(n[j] == tail[j - 3 - key.len() - a.len() - b.len()]);
        }
    }
    assert(n.len() >= 3);
    assert(n != crate::path::dot());
    assert(n != crate::path::dot_dot());
}

fn scratch_file(cache_dir: &FsPath, key: &String, pid: u32, nanos: u128, tail: &[char]) -> (r: FsPath)
    requires
        !key@.contains('/'),
        !tail@.contains('/'),
    ensures
        r@ == cache_dir@.push(Component::Normal(scratch_name(key@, pid, nanos, tail@))),
        rendered(r),
{
    let mut name = String::new();
    push_char(&mut name, '.');
    let kv = chars_of(key.as_str());
    push_chars(&mut name, kv.as_slice());
    push_char(&mut name, '.');
    push_decimal(&mut name, pid as u128);
    push_char(&mut name, '.');
    push_decimal(&mut name, nanos);
    push_chars(&mut name, tail);
    assert(name@ =~= scratch_name(key@, pid, nanos, tail@));
    proof {
        lemma_scratch_name_valid(key@, pid, nanos, tail@);
    }
    cache_dir.join_name(name)
}

/// The scratch files of a generation in `cache_dir`.
pub fn scratch_paths(cache_dir: &FsPath, key: &String, pid: u32, nanos: u128) -> (r: Scratch)
    requires
        !key@.contains('/'),
    ensures
        scratch_for(r, cache_dir@, key@, pid, nanos),
{
    let cover_t = ['.', 'c', 'o', 'v', 'e', 'r', '.', 'j', 'p', 'g'];
    let black_t = ['.', 'b', 'l', 'a', 'c', 'k', '.', 'j', 'p', 'g'];
    let tmp_t = ['.', 't', 'm', 'p', '.', 'm', 'k', 'v'];
    assert(cover_t@ =~= cover_tail());
    assert(black_t@ =~= black_tail());
    assert(tmp_t@ =~= tmp_tail());
    assert(!cover_tail().contains('/')) by {
        assert forall|j: int| 0 <= j < cover_tail().len() implies cover_tail()[j] != '/' by {}
    }
    assert(!black_tail().contains('/')) by {
        assert forall|j: int| 0 <= j < black_tail().len() implies black_tail()[j] != '/' by {}
    }
    assert(!tmp_tail().contains('/')) by {
        assert forall|j: int| 0 <= j < tmp_tail().len() implies tmp_tail()[j] != '/' by {}
    }
    Scratch {
        cover: scratch_file(cache_dir, key, pid, nanos, &cover_t),
        black: scratch_file(cache_dir, key, pid, nanos, &black_t),
        tmp_output: scratch_file(cache_dir, key, pid, nanos, &tmp_t),
    }
}

/// The program that generates the files.
pub open spec fn ffmpeg_text() -> Seq<char> {
    seq!['f', 'f', 'm', 'p', 'e', 'g']
}

fn ffmpeg() -> (r: String)
    ensures
        r@ == ffmpeg_text(),
{
    let mut r = String::new();
    push_chars(&mut r, &['f', 'f', 'm', 'p', 'e', 'g']);
    assert(r@ =~= ffmpeg_text());
    r
}

/// The views of a command line.
pub open spec fn args_view(args: Seq<String>) -> Seq<Seq<char>> {
    args.map_values(|a: String| a@)
}

/// `ffmpeg` arguments that copy the embedded cover art of `source` to `cover`.
pub open spec fn spec_cover_args(source: Seq<char>, cover: Seq<char>) -> Seq<Seq<char>> {
    seq!["-nostdin"@, "-y"@, "-i"@, source, "-an"@, "-vcodec"@, "copy"@, cover]
}

/// `ffmpeg` arguments that render one black 1920x1080 frame to `black`.
pub open spec fn spec_black_args(black: Seq<char>) -> Seq<Seq<char>> {
    seq!["-nostdin"@, "-y"@, "-f"@, "lavfi"@, "-i"@, "color=c=black:s=1920x1080:r=1"@, "-frames:v"@, "1"@, black]
}

/// `ffmpeg` arguments that mux the still `image` as H.264 video, scaled to
/// even dimensions, with the audio of `source` copied, into `output`.
pub open spec fn spec_mux_args(image: Seq<char>, source: Seq<char>, output: Seq<char>) -> Seq<Seq<char>> {
    seq![
        "-nostdin"@, "-y"@, "-loop"@, "1"@, "-i"@, image, "-i"@, source, "-map"@, "0:v:0"@, "-map"@,
        "1:a:0"@, "-c:v"@, "libx264"@, "-tune"@, "stillimage"@, "-vf"@, "scale=trunc(iw/2)*2:trunc(ih/2)*2"@,
        "-pix_fmt"@, "yuv420p"@, "-c:a"@, "copy"@, "-shortest"@, output,
    ]
}

/// The arguments for extracting the cover art.
pub fn cover_args(source: &FsPath, cover: &FsPath) -> (r: Vec<String>)
    ensures
        args_view(r@) == spec_cover_args(source.text@, render(cover@)),
{
    let mut r: Vec<String> = Vec::new();
    r.push(owned("-nostdin"));
    r.push(owned("-y"));
    r.push(owned("-i"));
    r.push(source.text.clone());
    r.push(owned("-an"));
    r.push(owned("-vcodec"));
    r.push(owned("copy"));
    r.push(cover.render());
    assert(args_view(r@) =~= spec_cover_args(source.text@, render(cover@)));
    r
}

/// The arguments for rendering the black fallback image.
pub fn black_args(black: &FsPath) -> (r: Vec<String>)
    ensures
        args_view(r@) == spec_black_args(render(black@)),
{
    let mut r: Vec<String> = Vec::new();
    r.push(owned("-nostdin"));
    r.push(owned("-y"));
    r.push(owned("-f"));
    r.push(owned("lavfi"));
    r.push(owned("-i"));
    r.push(owned("color=c=black:s=1920x1080:r=1"));
    r.push(owned("-frames:v"));
    r.push(owned("1"));
    r.push(black.render());
    assert(args_view(r@) =~= spec_black_args(render(black@)));
    r
}

/// The arguments for muxing the still image and the audio.
pub fn mux_args(image: &FsPath, source: &FsPath, output: &FsPath) -> (r: Vec<String>)
    ensures
        args_view(r@) == spec_mux_args(render(image@), source.text@, render(output@)),
        copies_source_audio(args_view(r@), source.text@),
{
    let mut r: Vec<String> = Vec::new();
    r.push(owned("-nostdin"));
    r.push(owned("-y"));
    r.push(owned("-loop"));
    r.push(owned("1"));
    r.push(owned("-i"));
    r.push(image.render());
    r.push(owned("-i"));
    r.push(source.text.clone());
    r.push(owned("-map"));
    r.push(owned("0:v:0"));
    r.push(owned("-map"));
    r.push(owned("1:a:0"));
    r.push(owned("-c:v"));
    r.push(owned("libx264"));
    r.push(owned("-tune"));
    r.push(owned("stillimage"));
    r.push(owned("-vf"));
    r.push(owned("scale=trunc(iw/2)*2:trunc(ih/2)*2"));
    r.push(owned("-pix_fmt"));
    r.push(owned("yuv420p"));
    r.push(owned("-c:a"));
    r.push(owned("copy"));
    r.push(owned("-shortest"));
    r.push(output.render());
    assert(args_view(r@) =~= spec_mux_args(render(image@), source.text@, render(output@)));
    assert(args_view(r@)[6] == "-i"@ && args_view(r@)[7] == source.text@);
    assert(args_view(r@)[10] == "-map"@ && args_view(r@)[11] == "1:a:0"@);
    assert(args_view(r@)[20] == "-c:a"@ && args_view(r@)[21] == "copy"@);
    r
}

/// Why a cached file could not be generated.
#[derive(Debug, PartialEq, Eq)]
pub enum MaterializeError {
    /// The cache directory could not be created.
    CacheDir { dir: String, message: String },
    /// An `ffmpeg` run failed.
    Command { message: String },
    /// The finished output could not be moved into place.
    Rename { from: String, to: String, message: String },
}

/// What is fixed for one generation: the cache directory, the source, its
/// key and the path of the cached file.
pub struct MaterializeJob {
    pub cache_dir: FsPath,
    pub source: FsPath,
    pub key: String,
    pub output: FsPath,
}

/// Where a generation stands.
pub enum MaterializeState {
    /// Creating the cache directory.
    CreatingDir,
    /// Looking for the cached file before locking.
    Checking,
    /// Taking the lock of the key.
    Locking,
    /// Looking for the cached file again under the lock.
    Rechecking,
    /// Waiting for the process id and time that name the scratch files.
    Naming,
    /// Extracting the cover art.
    ExtractingCover(Scratch),
    /// Rendering the black fallback image.
    RenderingBlack(Scratch),
    /// Muxing the still image and the audio.
    Muxing(Scratch),
    /// Moving the output into place.
    Renaming(Scratch),
    /// Removing the scratch files; then the generation ends with the error,
    /// if any.
    CleaningUp(Option<MaterializeError>),
    /// Done.
    Finished,
}

/// What the caller reports after performing an action.
pub enum MaterializeEvent {
    /// The action succeeded.
    Done,
    /// The action failed, with a message.
    Failed(String),
    /// Whether the checked file exists.
    Exists(bool),
    /// The process id and the time since the epoch in nanoseconds.
    Suffix { pid: u32, nanos: u128 },
}

/// What the caller is to perform next.
pub enum MaterializeAction {
    CreateDir(FsPath),
    CheckFile(FsPath),
    Lock(String),
    ReadSuffix,
    /// Run `program` with these arguments.
    Run { program: String, args: Vec<String> },
    Rename { from: FsPath, to: FsPath },
    /// Remove these files, ignoring failures.
    RemoveFiles(Vec<FsPath>),
    /// The generation ends with this result.
    Finish(Result<FsPath, MaterializeError>),
}

pub open spec fn job_wf(job: MaterializeJob) -> bool {
    !job.key@.contains('/')
}

pub open spec fn paths_view(v: Seq<FsPath>) -> Seq<Seq<Component>> {
    v.map_values(|p: FsPath| p@)
}

/// The texts of a list of paths.
pub open spec fn texts_view(v: Seq<FsPath>) -> Seq<Seq<char>> {
    v.map_values(|p: FsPath| p.text@)
}

/// Two paths with the same components and the same text.
pub open spec fn same_path(a: FsPath, b: FsPath) -> bool {
    a@ == b@ && a.text@ == b.text@
}

pub open spec fn same_scratch(a: Scratch, b: Scratch) -> bool {
    same_path(a.cover, b.cover) && same_path(a.black, b.black) && same_path(a.tmp_output, b.tmp_output)
}

/// The action removes the three scratch files.
pub open spec fn removes_scratch(action: MaterializeAction, s: Scratch) -> bool {
    &&& action matches MaterializeAction::RemoveFiles(v)
    &&& paths_view(v@) == seq![s.cover@, s.black@, s.tmp_output@]
    &&& texts_view(v@) == seq![s.cover.text@, s.black.text@, s.tmp_output.text@]
}

/// The event is one that the state waits for.
pub open spec fn event_fits(state: MaterializeState, event: MaterializeEvent) -> bool {
    match state {
        MaterializeState::CreatingDir => event is Done || event is Failed,
        MaterializeState::Checking => event is Exists,
        MaterializeState::Locking => event is Done,
        MaterializeState::Rechecking => event is Exists,
        MaterializeState::Naming => event is Suffix,
        MaterializeState::ExtractingCover(_) => event is Done || event is Failed,
        MaterializeState::RenderingBlack(_) => event is Done || event is Failed,
        MaterializeState::Muxing(_) => event is Done || event is Failed,
        MaterializeState::Renaming(_) => event is Done || event is Failed,
        MaterializeState::CleaningUp(_) => event is Done,
        MaterializeState::Finished => false,
    }
}

/// One step of a generation.  The cached file is reused when it exists,
/// before and again under the key's lock.  Otherwise the cover art is
/// extracted; when that fails a black image is rendered instead; the image
/// and the audio are muxed into a scratch output that is then moved into
/// place.  Every path after the scratch files are named removes them before
/// the generation ends.
pub open spec fn spec_step(
    job: MaterializeJob,
    state: MaterializeState,
    event: MaterializeEvent,
    next: MaterializeState,
    action: MaterializeAction,
) -> bool {
    let src = job.source.text@;
    match state {
        MaterializeState::CreatingDir => match event {
            MaterializeEvent::Done => {
                &&& next is Checking
                &&& action matches MaterializeAction::CheckFile(p)
                &&& same_path(p, job.output)
            },
            MaterializeEvent::Failed(m) => {
                &&& next is Finished
                &&& action matches MaterializeAction::Finish(Err(MaterializeError::CacheDir { dir, message }))
                &&& dir@ == render(job.cache_dir@)
                &&& message@ == m@
            },
            _ => false,
        },
        MaterializeState::Checking => match event {
            MaterializeEvent::Exists(true) => {
                &&& next is Finished
                &&& action matches MaterializeAction::Finish(Ok(p))
                &&& same_path(p, job.output)
            },
            MaterializeEvent::Exists(false) => {
                &&& next is Locking
                &&& action matches MaterializeAction::Lock(k)
                &&& k@ == job.key@
            },
            _ => false,
        },
        MaterializeState::Locking => match event {
            MaterializeEvent::Done => {
                &&& next is Rechecking
                &&& action matches MaterializeAction::CheckFile(p)
                &&& same_path(p, job.output)
            },
            _ => false,
        },
        MaterializeState::Rechecking => match event {
            MaterializeEvent::Exists(true) => {
                &&& next is Finished
                &&& action matches MaterializeAction::Finish(Ok(p))
                &&& same_path(p, job.output)
            },
            MaterializeEvent::Exists(false) => next is Naming && action is ReadSuffix,
            _ => false,
        },
        MaterializeState::Naming => match event {
            MaterializeEvent::Suffix { pid, nanos } => {
                &&& next matches MaterializeState::ExtractingCover(s)
                &&& scratch_for(s, job.cache_dir@, job.key@, pid, nanos)
                &&& action matches MaterializeAction::Run { program, args: a }
                &&& program@ == ffmpeg_text()
                &&& args_view(a@) == spec_cover_args(src, render(s.cover@))
            },
            _ => false,
        },
        MaterializeState::ExtractingCover(s) => match event {
            MaterializeEvent::Done => {
                &&& next matches MaterializeState::Muxing(t)
                &&& same_scratch(t, s)
                &&& action matches MaterializeAction::Run { program, args: a }
                &&& program@ == ffmpeg_text()
                &&& args_view(a@) == spec_mux_args(render(s.cover@), src, render(s.tmp_output@))
            },
            MaterializeEvent::Failed(_) => {
                &&& next matches MaterializeState::RenderingBlack(t)
                &&& same_scratch(t, s)
                &&& action matches MaterializeAction::Run { program, args: a }
                &&& program@ == ffmpeg_text()
                &&& args_view(a@) == spec_black_args(render(s.black@))
            },
            _ => false,
        },
        MaterializeState::RenderingBlack(s) => match event {
            MaterializeEvent::Done => {
                &&& next matches MaterializeState::Muxing(t)
                &&& same_scratch(t, s)
                &&& action matches MaterializeAction::Run { program, args: a }
                &&& program@ == ffmpeg_text()
                &&& args_view(a@) == spec_mux_args(render(s.black@), src, render(s.tmp_output@))
            },
            MaterializeEvent::Failed(m) => {
                &&& next matches MaterializeState::CleaningUp(Some(MaterializeError::Command { message }))
                &&& message@ == m@
                &&& removes_scratch(action, s)
            },
            _ => false,
        },
        MaterializeState::Muxing(s) => match event {
            MaterializeEvent::Done => {
                &&& next matches MaterializeState::Renaming(t)
                &&& same_scratch(t, s)
                &&& action matches MaterializeAction::Rename { from, to }
                &&& same_path(from, s.tmp_output)
                &&& same_path(to, job.output)
            },
            MaterializeEvent::Failed(m) => {
                &&& next matches MaterializeState::CleaningUp(Some(MaterializeError::Command { message }))
                &&& message@ == m@
                &&& removes_scratch(action, s)
            },
            _ => false,
        },
        MaterializeState::Renaming(s) => match event {
            MaterializeEvent::Done => {
                &&& next matches MaterializeState::CleaningUp(None)
                &&& removes_scratch(action, s)
            },
            MaterializeEvent::Failed(m) => {
                &&& next matches MaterializeState::CleaningUp(Some(MaterializeError::Rename { from, to, message }))
                &&& from@ == render(s.tmp_output@)
                &&& to@ == render(job.output@)
                &&& message@ == m@
                &&& removes_scratch(action, s)
            },
            _ => false,
        },
        MaterializeState::CleaningUp(e) => match event {
            MaterializeEvent::Done => {
                &&& next is Finished
                &&& match e {
                    None => {
                        &&& action matches MaterializeAction::Finish(Ok(p))
                        &&& same_path(p, job.output)
                    },
                    Some(err) => {
                        &&& action matches MaterializeAction::Finish(Err(x))
                        &&& x == err
                    },
                }
            },
            _ => false,
        },
        MaterializeState::Finished => false,
    }
}

/// A generation that ends in success hands back the path of the cached
/// file, and only after finding that file or moving the finished output
/// into it: success is reported from a check that found the file, or from
/// the clean-up that follows a successful rename.
pub proof fn lemma_success_is_cached_path(
    job: MaterializeJob,
    state: MaterializeState,
    event: MaterializeEvent,
    next: MaterializeState,
    action: MaterializeAction,
)
    requires
        spec_step(job, state, event, next, action),
    ensures
        action matches MaterializeAction::Finish(Ok(p)) ==> same_path(p, job.output),
        action matches MaterializeAction::Finish(Ok(_)) ==> {
            ||| (state is Checking || state is Rechecking) && event == MaterializeEvent::Exists(true)
            ||| state matches MaterializeState::CleaningUp(None)
        },
        next matches MaterializeState::CleaningUp(None) ==> state is Renaming && event is Done,
{
}

/// Once the scratch files are named, no step ends the generation: each
/// failure and the final rename lead to removing exactly those scratch
/// files, and only the states before the naming or the clean-up finish.
pub proof fn lemma_scratch_removed_before_finish(
    job: MaterializeJob,
    state: MaterializeState,
    event: MaterializeEvent,
    next: MaterializeState,
    action: MaterializeAction,
)
    requires
        spec_step(job, state, event, next, action),
    ensures
        action is Finish ==> (state is CreatingDir || state is Checking || state is Rechecking
            || state is CleaningUp),
        next is Finished <==> action is Finish,
        next is CleaningUp ==> match state {
            MaterializeState::RenderingBlack(s) => removes_scratch(action, s),
            MaterializeState::Muxing(s) => removes_scratch(action, s),
            MaterializeState::Renaming(s) => removes_scratch(action, s),
            _ => false,
        },
{
}

/// The image that is muxed is the extracted cover when its extraction
/// succeeded, and the black image only after that extraction failed.
pub proof fn lemma_mux_image_choice(
    job: MaterializeJob,
    s: Scratch,
    event: MaterializeEvent,
    next: MaterializeState,
    action: MaterializeAction,
)
    requires
        spec_step(job, MaterializeState::ExtractingCover(s), event, next, action),
    ensures
        event is Done ==> (action matches MaterializeAction::Run { program: _, args: a } && args_view(a@)
            == spec_mux_args(render(s.cover@), job.source.text@, render(s.tmp_output@))),
        event is Failed ==> next is RenderingBlack,
{
}

/// The file that the mux command writes is the one that the rename then
/// moves into place: when the scratch output's text renders its
/// components, as the naming of the scratch files makes it, the last
/// argument of the mux is the text of the path the rename moves, and the
/// rename moves it to the path of the cached file, text included.
pub proof fn lemma_mux_output_is_renamed(
    job: MaterializeJob,
    state: MaterializeState,
    s: Scratch,
    mux: MaterializeAction,
    muxing: MaterializeState,
    next: MaterializeState,
    rename: MaterializeAction,
)
    requires
        state is ExtractingCover || state is RenderingBlack,
        state matches MaterializeState::ExtractingCover(t) ==> t == s,
        state matches MaterializeState::RenderingBlack(t) ==> t == s,
        rendered(s.tmp_output),
        spec_step(job, state, MaterializeEvent::Done, muxing, mux),
        spec_step(job, muxing, MaterializeEvent::Done, next, rename),
    ensures
        mux matches MaterializeAction::Run { program: _, args: a } && rename matches MaterializeAction::Rename {
            from,
            to,
        } && args_view(a@).last() == from.text@ && same_path(to, job.output),
{
}

/// The arguments copy the audio of the source into the output unchanged:
/// the source is an input (`-i` and its text), its first audio stream is
/// mapped (`-map 1:a:0`) and the audio codec is `copy`.
pub open spec fn copies_source_audio(v: Seq<Seq<char>>, source: Seq<char>) -> bool {
    &&& exists|i: int| 0 <= i && i + 1 < v.len() && #[trigger] v[i] == "-i"@ && v[i + 1] == source
    &&& exists|i: int| 0 <= i && i + 1 < v.len() && #[trigger] v[i] == "-map"@ && v[i + 1] == "1:a:0"@
    &&& exists|i: int| 0 <= i && i + 1 < v.len() && #[trigger] v[i] == "-c:a"@ && v[i + 1] == "copy"@
}

/// The mux command that a step issues keeps the source's E-AC-3 audio as it
/// is: whichever image it muxes, it maps the audio of the source and
/// copies it (`-c:a copy`).
pub proof fn lemma_mux_copies_audio(
    job: MaterializeJob,
    state: MaterializeState,
    event: MaterializeEvent,
    next: MaterializeState,
    action: MaterializeAction,
)
    requires
        spec_step(job, state, event, next, action),
        next is Muxing,
    ensures
        action matches MaterializeAction::Run { program: _, args: a } && copies_source_audio(
            args_view(a@),
            job.source.text@,
        ),
{
    let a = action->Run_args;
    let v = args_view(a@);
    assert(v[6] == "-i"@ && v[7] == job.source.text@);
    assert(v[10] == "-map"@ && v[11] == "1:a:0"@);
    assert(v[20] == "-c:a"@ && v[21] == "copy"@);
}

/// The stage of a generation, in the order in which it passes them.
pub open spec fn stage(state: MaterializeState) -> int {
    match state {
        MaterializeState::CreatingDir => 0,
        MaterializeState::Checking => 1,
        MaterializeState::Locking => 2,
        MaterializeState::Rechecking => 3,
        MaterializeState::Naming => 4,
        MaterializeState::ExtractingCover(_) => 5,
        MaterializeState::RenderingBlack(_) => 6,
        MaterializeState::Muxing(_) => 7,
        MaterializeState::Renaming(_) => 8,
        MaterializeState::CleaningUp(_) => 9,
        MaterializeState::Finished => 10,
    }
}

/// No command runs unless the cached file was found missing again after
/// the key's lock was taken: every step moves to a later stage, commands
/// run only from the naming of the scratch files on, and that part is
/// entered only from the check under the lock that found no file.  So of
/// two generations of one key that take the lock in turn, the later one
/// finds the file that the earlier one moved into place and runs nothing.
pub proof fn lemma_commands_only_after_recheck(
    job: MaterializeJob,
    state: MaterializeState,
    event: MaterializeEvent,
    next: MaterializeState,
    action: MaterializeAction,
)
    requires
        spec_step(job, state, event, next, action),
    ensures
        stage(next) > stage(state),
        action is Run ==> stage(state) >= stage(MaterializeState::Naming),
        stage(state) < stage(MaterializeState::Naming) <= stage(next) && !(next is Finished) ==> {
            &&& state is Rechecking
            &&& event == MaterializeEvent::Exists(false)
        },
        state is Locking ==> {
            &&& next is Rechecking
            &&& action matches MaterializeAction::CheckFile(p)
            &&& same_path(p, job.output)
        },
        state is Rechecking && event == MaterializeEvent::Exists(true) ==> {
            &&& action matches MaterializeAction::Finish(Ok(p))
            &&& same_path(p, job.output)
        },
{
}

fn scratch_files(s: &Scratch) -> (r: Vec<FsPath>)
    ensures
        paths_view(r@) == seq![s.cover@, s.black@, s.tmp_output@],
        texts_view(r@) == seq![s.cover.text@, s.black.text@, s.tmp_output.text@],
{
    let mut r: Vec<FsPath> = Vec::new();
    r.push(s.cover.duplicate());
    r.push(s.black.duplicate());
    r.push(s.tmp_output.duplicate());
    assert(paths_view(r@) =~= seq![s.cover@, s.black@, s.tmp_output@]);
    assert(texts_view(r@) =~= seq![s.cover.text@, s.black.text@, s.tmp_output.text@]);
    r
}

fn copy_string(s: &String) -> (r: String)
    ensures
        r@ == s@,
{
    s.clone()
}

impl MaterializeJob {
    /// The generation of the cached file of `item` in `cache_dir`.
    pub fn new(cache_dir: &FsPath, item: &MediaItem) -> (j: MaterializeJob)
        ensures
            job_wf(j),
            same_path(j.cache_dir, *cache_dir),
            same_path(j.source, item.source_path),
            j.key@ == spec_cache_key(item.source_path.text@, item.size, item.mtime),
            j.output@ == spec_cached_path(cache_dir@, *item),
            rendered(j.output),
    {
        let key = cache_key(&item.source_path, item.size, item.mtime);
        assert(!key@.contains('/')) by {
            let n = key@.push('.') + seq!['m', 'k', 'v'];
            assert forall|i: int| 0 <= i < key@.len() implies key@[i] != '/' by {
                assert(n[i] == key@[i]);
            }
        }
        MaterializeJob {
            cache_dir: cache_dir.duplicate(),
            source: item.source_path.duplicate(),
            key,
            output: cached_file(cache_dir, item),
        }
    }

    /// The first state and action of a generation: create the cache
    /// directory.
    pub fn start(&self) -> (r: (MaterializeState, MaterializeAction))
        ensures
            r.0 is CreatingDir,
            match r.1 {
                MaterializeAction::CreateDir(d) => same_path(d, self.cache_dir),
                _ => false,
            },
    {
        (MaterializeState::CreatingDir, MaterializeAction::CreateDir(self.cache_dir.duplicate()))
    }

    /// The next state and action after `event`.
    pub fn step(&self, state: MaterializeState, event: MaterializeEvent) -> (r: (MaterializeState, MaterializeAction))
        requires
            job_wf(*self),
            event_fits(state, event),
        ensures
            spec_step(*self, state, event, r.0, r.1),
    {
        match state {
            MaterializeState::CreatingDir => match event {
                MaterializeEvent::Failed(m) => (
                    MaterializeState::Finished,
                    MaterializeAction::Finish(
                        Err(MaterializeError::CacheDir { dir: self.cache_dir.render(), message: m }),
                    ),
                ),
                _ => (MaterializeState::Checking, MaterializeAction::CheckFile(self.output.duplicate())),
            },
            MaterializeState::Checking => match event {
                MaterializeEvent::Exists(true) => (
                    MaterializeState::Finished,
                    MaterializeAction::Finish(Ok(self.output.duplicate())),
                ),
                _ => (MaterializeState::Locking, MaterializeAction::Lock(copy_string(&self.key))),
            },
            MaterializeState::Locking => (
                MaterializeState::Rechecking,
                MaterializeAction::CheckFile(self.output.duplicate()),
            ),
            MaterializeState::Rechecking => match event {
                MaterializeEvent::Exists(true) => (
                    MaterializeState::Finished,
                    MaterializeAction::Finish(Ok(self.output.duplicate())),
                ),
                _ => (MaterializeState::Naming, MaterializeAction::ReadSuffix),
            },
            MaterializeState::Naming => match event {
                MaterializeEvent::Suffix { pid, nanos } => {
                    let s = scratch_paths(&self.cache_dir, &self.key, pid, nanos);
                    let a = cover_args(&self.source, &s.cover);
                    (MaterializeState::ExtractingCover(s), MaterializeAction::Run { program: ffmpeg(), args: a })
                },
                _ => (MaterializeState::Finished, MaterializeAction::ReadSuffix),
            },
            MaterializeState::ExtractingCover(s) => match event {
                MaterializeEvent::Done => {
                    let a = mux_args(&s.cover, &self.source, &s.tmp_output);
                    (MaterializeState::Muxing(s), MaterializeAction::Run { program: ffmpeg(), args: a })
                },
                _ => {
                    let a = black_args(&s.black);
                    (MaterializeState::RenderingBlack(s), MaterializeAction::Run { program: ffmpeg(), args: a })
                },
            },
            MaterializeState::RenderingBlack(s) => match event {
                MaterializeEvent::Failed(m) => {
                    let files = scratch_files(&s);
                    (
                        MaterializeState::CleaningUp(Some(MaterializeError::Command { message: m })),
                        MaterializeAction::RemoveFiles(files),
                    )
                },
                _ => {
                    let a = mux_args(&s.black, &self.source, &s.tmp_output);
                    (MaterializeState::Muxing(s), MaterializeAction::Run { program: ffmpeg(), args: a })
                },
            },
            MaterializeState::Muxing(s) => match event {
                MaterializeEvent::Failed(m) => {
                    let files = scratch_files(&s);
                    (
                        MaterializeState::CleaningUp(Some(MaterializeError::Command { message: m })),
                        MaterializeAction::RemoveFiles(files),
                    )
                },
                _ => {
                    let from = s.tmp_output.duplicate();
                    let to = self.output.duplicate();
                    (MaterializeState::Renaming(s), MaterializeAction::Rename { from, to })
                },
            },
            MaterializeState::Renaming(s) => match event {
                MaterializeEvent::Failed(m) => {
                    let files = scratch_files(&s);
                    let from = s.tmp_output.render();
                    let to = self.output.render();
                    (
                        MaterializeState::CleaningUp(Some(MaterializeError::Rename { from, to, message: m })),
                        MaterializeAction::RemoveFiles(files),
                    )
                },
                _ => {
                    let files = scratch_files(&s);
                    (MaterializeState::CleaningUp(None), MaterializeAction::RemoveFiles(files))
                },
            },
            MaterializeState::CleaningUp(e) => match e {
                None => (MaterializeState::Finished, MaterializeAction::Finish(Ok(self.output.duplicate()))),
                Some(err) => (MaterializeState::Finished, MaterializeAction::Finish(Err(err))),
            },
            MaterializeState::Finished => (MaterializeState::Finished, MaterializeAction::ReadSuffix),
        }
    }
}

} // verus!
