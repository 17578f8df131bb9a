//! The supervisor's spawn plan: one distinct identity per configured worker,
//! each with its private working directory and the configuration the worker
//! process needs to dial the master and run the download collaborator.

use vstd::prelude::*;
use vstd::string::*;
use vstd::utf8::*;
use crate::codec::str_from_utf8;

verus! {

/// Verbosity threshold for the log sink.
#[derive(Debug, Clone, Copy, PartialEq, Eq, Structural)]
pub enum LevelFilter {
    Off,
    Error,
    Warn,
    Info,
    Debug,
    Trace,
}

/// The master's configuration.
#[derive(Debug, Clone, PartialEq)]
pub struct Options {
    pub verbosity: LevelFilter,
    pub threads: usize,
    pub link_batch_size: usize,
    pub tmp_dir: String,
    pub download_dir: String,
    pub logs_dir_relative: String,
    pub parse_regex_str: String,
    pub yt_dlp_output_template: String,
    pub html_path: String,
}

/// Tuning handed through to the download collaborator inside each worker.
#[derive(Debug, Clone, Copy, PartialEq, Eq, Structural)]
pub struct DownloaderOptions {
    pub http_chunk_size: usize,
}

/// The chunk size every worker asks the download collaborator to use.
pub const HTTP_CHUNK_SIZE: usize = 10485760;

/// Everything one worker process is told at spawn time.
#[derive(Debug, Clone, PartialEq)]
pub struct WorkerSpec {
    /// The identity this worker must greet with.
    pub thr_id: usize,
    /// The endpoint the worker dials.
    pub socket_path: String,
    /// This worker's private working directory.
    pub work_dir: String,
    pub logs_dir: String,
    pub download_dir: String,
    pub tmp_dir: String,
    pub output_template: String,
    pub downloader: DownloaderOptions,
}

/// The decimal digit character of `d`.
pub open spec fn spec_digit(d: nat) -> char
    recommends
        d < 10,
{
    ((48 + d) as u8) as char
}

/// The decimal notation of `n`, most significant digit first, no leading
/// zeros (a single zero for zero itself).
pub open spec fn spec_udec(n: nat) -> Seq<char>
    decreases n,
{
    if n < 10 {
        seq![spec_digit(n)]
    } else {
        spec_udec(n / 10).push(spec_digit(n % 10))
    }
}

spec fn chars_of_rev(bytes: Seq<u8>) -> Seq<char> {
    Seq::new(bytes.len(), |i: int| bytes[bytes.len() - 1 - i] as char)
}

/// Writes `n` in decimal.
pub fn usize_to_decimal(n: usize) -> (r: String)
    ensures
        r@ == spec_udec(n as nat),
{
    let mut digits: Vec<u8> = Vec::new();
    let mut m: usize = n;
    digits.push(48 + (m % 10) as u8);
    proof {
        assert(chars_of_rev(digits@) =~= seq![spec_digit(n as nat % 10)]);
        if n < 10 {
            assert(spec_udec(n as nat) =~= seq![spec_digit(n as nat)]);
        }
    }
    m = m / 10;
    while m > 0
        invariant
            digits@.len() >= 1,
            forall|i: int| 0 <= i < digits@.len() ==> 48 <= #[trigger] digits@[i] < 58,
            spec_udec(n as nat) == if m > 0 {
                spec_udec(m as nat) + chars_of_rev(digits@)
            } else {
                chars_of_rev(digits@)
            },
        decreases m,
    {
        let ghost prev = digits@;
        let d = (m % 10) as u8;
        digits.push(48 + d);
        proof {
            assert(chars_of_rev(digits@) =~= seq![spec_digit(m as nat % 10)] + chars_of_rev(
                prev,
            ));
            if m >= 10 {
                assert(spec_udec(m as nat) == spec_udec(m as nat / 10).push(
                    spec_digit(m as nat % 10),
                ));
                assert(spec_udec(m as nat / 10).push(spec_digit(m as nat % 10)) =~= spec_udec(
                    m as nat / 10,
                ) + seq![spec_digit(m as nat % 10)]);
                assert(spec_udec(m as nat) + chars_of_rev(prev) =~= spec_udec(m as nat / 10) + (
                seq![spec_digit(m as nat % 10)] + chars_of_rev(prev)));
            } else {
                assert(spec_udec(m as nat) =~= seq![spec_digit(m as nat)]);
            }
        }
        m = m / 10;
    }
    let ghost c = spec_udec(n as nat);
    assert(c == chars_of_rev(digits@));
    let k = digits.len();
    let mut ordered: Vec<u8> = Vec::new();
    let mut i: usize = k;
    while i > 0
        invariant
            i <= k,
            k == digits@.len(),
            ordered@.len() == k - i,
            forall|j: int| 0 <= j < ordered@.len() ==> ordered@[j] == digits@[k - 1 - j],
        decreases i,
    {
        i = i - 1;
        ordered.push(digits[i]);
    }
    proof {
        assert forall|j: int| 0 <= j < c.len() implies c[j] == ordered@[j] as char && (
        #[trigger] ordered@[j]) < 128 by {
            assert(ordered@[j] == digits@[k - 1 - j]);
        }
        assert(is_ascii_chars(c));
        is_ascii_chars_encode_utf8(c);
        assert(encode_utf8(c) =~= ordered@);
        encode_utf8_valid_utf8(c);
    }
    match str_from_utf8(ordered.as_slice()) {
        Some(s) => {
            proof {
                encode_utf8_decode_utf8(s@);
                encode_utf8_decode_utf8(c);
            }
            s.to_owned()
        },
        None => {
            proof {
                assert(false);
            }
            String::new()
        },
    }
}

/// Lays out the worker pool: for each of `threads` workers a distinct
/// identity `0, 1, ...`, a private working directory under the temporary
/// directory, the shared endpoint path, and the directories and template the
/// download collaborator needs.
pub fn spawn_plan(opts: &Options) -> (r: Vec<WorkerSpec>)
    ensures
        r@.len() == opts.threads,
        forall|i: int|
            0 <= i < opts.threads ==> {
                let w = #[trigger] r@[i];
                &&& w.thr_id == i
                &&& w.socket_path@ == opts.tmp_dir@ + "/master.sock"@
                &&& w.work_dir@ == opts.tmp_dir@ + "/"@ + spec_udec(i as nat)
                &&& w.logs_dir@ == opts.download_dir@ + opts.logs_dir_relative@
                &&& w.download_dir@ == opts.download_dir@
                &&& w.tmp_dir@ == opts.tmp_dir@
                &&& w.output_template@ == opts.yt_dlp_output_template@
                &&& w.downloader.http_chunk_size == HTTP_CHUNK_SIZE
            },
        // no two workers share an identity
        forall|i: int, j: int|
            0 <= i < j < r@.len() ==> (#[trigger] r@[i]).thr_id != (#[trigger] r@[j]).thr_id,
{
    let threads = opts.threads;
    let mut plan: Vec<WorkerSpec> = Vec::new();
    let mut t: usize = 0;
    while t < threads
        invariant
            t <= threads,
            plan@.len() == t,
            forall|i: int|
                0 <= i < t ==> {
                    let w = #[trigger] plan@[i];
                    &&& w.thr_id == i
                    &&& w.socket_path@ == opts.tmp_dir@ + "/master.sock"@
                    &&& w.work_dir@ == opts.tmp_dir@ + "/"@ + spec_udec(i as nat)
                    &&& w.logs_dir@ == opts.download_dir@ + opts.logs_dir_relative@
                    &&& w.download_dir@ == opts.download_dir@
                    &&& w.tmp_dir@ == opts.tmp_dir@
                    &&& w.output_template@ == opts.yt_dlp_output_template@
                    &&& w.downloader.http_chunk_size == HTTP_CHUNK_SIZE
                },
        decreases threads - t,
    {
        let socket_path = opts.tmp_dir.clone().concat("/master.sock");
        let id_text = usize_to_decimal(t);
        let work_dir = opts.tmp_dir.clone().concat("/").concat(id_text.as_str());
        let logs_dir = opts.download_dir.clone().concat(opts.logs_dir_relative.as_str());
        let spec = WorkerSpec {
            thr_id: t,
            socket_path,
            work_dir,
            logs_dir,
            download_dir: opts.download_dir.clone(),
            tmp_dir: opts.tmp_dir.clone(),
            output_template: opts.yt_dlp_output_template.clone(),
            downloader: DownloaderOptions { http_chunk_size: HTTP_CHUNK_SIZE },
        };
        plan.push(spec);
        t = t + 1;
    }
    plan
}

} // verus!
