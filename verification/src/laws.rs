//! What holds of the storage across its operations.

use crate::digest::sha256;
use crate::state::{
    InnerState, StateModel, clean_file_model, content_digest, delete_model, download_by_result,
    download_result, file_hashes, fresh_upload, max_direct_download, paths_with_hash, publish_model,
    upload_steps,
    upload_chain, content_len, upload_size, within_limits,
};
use crate::keyed::{lemma_map_sum_insert, lemma_map_sum_remove, lemma_map_sum_sub, map_sum};
use crate::upload::{
    UploadView, UploadingArg, chunk_count, lemma_chunk_count, path_and_headers_fault,
    size_and_data_fault,
};
use vstd::prelude::*;
use vstd::set_lib::{lemma_int_range, lemma_len_subset, lemma_subset_equality, set_int_range};

verus! {

/// In a well-formed state a content is stored exactly when some published
/// file names it, and the digest index lists, for each such digest, exactly
/// the paths that publish it.
pub proof fn lemma_content_is_stored_iff_named(s: &InnerState)
    requires
        s.wf(),
    ensures
        s.assets_view().dom() == file_hashes(s.files_view()),
        s.hashes_view().dom() == file_hashes(s.files_view()),
        forall|h: Seq<u8>| #[trigger]
            s.hashes_view().contains_key(h) ==> s.hashes_view()[h] == paths_with_hash(
                s.files_view(),
                h,
            ),
{
    s.lemma_index();
}

/// Once a completed upload is published, a direct download of its path gives
/// back its content, provided the content is new to the storage (or equal to
/// the content stored under the same digest) and small enough for a direct
/// query.
pub proof fn lemma_publish_then_download(m: StateModel, u: UploadView, now: i128)
    requires
        u.data.len() == u.size,
        u.size <= max_direct_download(),
        ({
            let m0 = clean_file_model(m, u.path);
            let h = content_digest(m.hashed, u);
            m0.assets.contains_key(h) ==> m0.assets[h] == u.data
        }),
    ensures
        download_result(publish_model(m, u, now).files, publish_model(m, u, now).assets, u.path)
            == Ok::<Seq<u8>, crate::assets::DownloadError>(u.data),
{
    let p = publish_model(m, u, now);
    let h = content_digest(m.hashed, u);
    assert(p.files.contains_key(u.path));
    assert(p.files[u.path].hash == h);
    assert(p.assets.contains_key(h));
    assert(p.assets[h] == u.data);
    assert(u.data.subrange(0, u.size as int) =~= u.data);
}

/// Once a completed upload is published, reading a range of its path gives
/// that range of its content, under the same provisos as a whole download.
pub proof fn lemma_publish_then_download_by(
    m: StateModel,
    u: UploadView,
    now: i128,
    offset: u64,
    size: u64,
)
    requires
        u.data.len() == u.size,
        size <= max_direct_download(),
        offset + size <= u.size,
        u.size <= usize::MAX,
        ({
            let m0 = clean_file_model(m, u.path);
            let h = content_digest(m.hashed, u);
            m0.assets.contains_key(h) ==> m0.assets[h] == u.data
        }),
    ensures
        download_by_result(
            publish_model(m, u, now).files,
            publish_model(m, u, now).assets,
            u.path,
            offset,
            size,
        ) == Ok::<Seq<u8>, crate::assets::DownloadError>(
            u.data.subrange(offset as int, offset + size),
        ),
{
    let p = publish_model(m, u, now);
    let h = content_digest(m.hashed, u);
    assert(p.files.contains_key(u.path));
    assert(p.files[u.path].hash == h);
    assert(p.assets[h] == u.data);
}

/// After a batch of paths is deleted, none of them is published or being
/// uploaded, and every other path keeps its file and its upload.
pub proof fn lemma_delete_removes(m: StateModel, names: Seq<String>)
    ensures
        forall|i: int|
            0 <= i < names.len() ==> !delete_model(m, names).files.contains_key(#[trigger] names[i]@)
                && !delete_model(m, names).uploading.contains_key(names[i]@),
        forall|p: Seq<char>|
            (forall|i: int| 0 <= i < names.len() ==> #[trigger] names[i]@ != p) ==> (
            #[trigger] delete_model(m, names).files.contains_key(p) == m.files.contains_key(p) && (
            m.files.contains_key(p) ==> delete_model(m, names).files[p] == m.files[p])
                && delete_model(m, names).uploading.contains_key(p) == m.uploading.contains_key(p)
                && (m.uploading.contains_key(p) ==> delete_model(m, names).uploading[p]
                == m.uploading[p])),
        delete_model(m, names).hashed == m.hashed,
    decreases names.len(),
{
    if names.len() > 0 {
        let rest = names.drop_last();
        lemma_delete_removes(m, rest);
        assert forall|i: int| 0 <= i < names.len() implies !delete_model(
            m,
            names,
        ).files.contains_key(#[trigger] names[i]@) && !delete_model(m, names).uploading.contains_key(
            names[i]@,
        ) by {
            if i < rest.len() {
                assert(rest[i] == names[i]);
            }
        }
        assert forall|p: Seq<char>|
            (forall|i: int| 0 <= i < names.len() ==> #[trigger] names[i]@ != p) implies (
        #[trigger] delete_model(m, names).files.contains_key(p) == m.files.contains_key(p) && (
        m.files.contains_key(p) ==> delete_model(m, names).files[p] == m.files[p])
            && delete_model(m, names).uploading.contains_key(p) == m.uploading.contains_key(p) && (
        m.uploading.contains_key(p) ==> delete_model(m, names).uploading[p] == m.uploading[p])) by {
            assert forall|i: int| 0 <= i < rest.len() implies #[trigger] rest[i]@ != p by {
                assert(rest[i] == names[i]);
            }
            assert(names[names.len() - 1]@ != p);
            let m1 = delete_model(m, rest);
            assert(m1.files.contains_key(p) == m.files.contains_key(p));
            assert(m1.uploading.contains_key(p) == m.uploading.contains_key(p));
            let m2 = StateModel { uploading: m1.uploading.remove(names.last()@), ..m1 };
            assert(delete_model(m, names) == clean_file_model(m2, names.last()@));
        }
    }
}

} // verus!

verus! {

/// The bytes of `content` that chunk `index` carries.
pub open spec fn chunk_of(content: Seq<u8>, size: u64, chunk_size: u32, index: int) -> Seq<u8> {
    let r = crate::upload::chunk_range(size as int, chunk_size as int, index);
    content.subrange(r.0, r.1)
}

/// The upload after each chunk of `args` is written into it in turn.
pub open spec fn write_all(base: UploadView, args: Seq<crate::upload::UploadingArg>) -> UploadView
    decreases args.len(),
{
    if args.len() == 0 {
        base
    } else {
        crate::state::write_chunk(write_all(base, args.drop_last()), args.last())
    }
}

/// Every byte of a file lies in the chunk its position divided by the chunk
/// size names.
pub proof fn lemma_position_in_chunk(size: int, chunk_size: int, p: int)
    requires
        0 < size <= crate::upload::MAX_ASSET_FILE_SIZE,
        0 < chunk_size,
        0 <= p < size,
    ensures
        0 <= p / chunk_size < crate::upload::chunk_count(size, chunk_size),
        crate::upload::chunk_range(size, chunk_size, p / chunk_size).0 <= p,
        p < crate::upload::chunk_range(size, chunk_size, p / chunk_size).1,
{
    crate::upload::lemma_chunk_count(size, chunk_size);
    let i = p / chunk_size;
    let c = crate::upload::chunk_count(size, chunk_size);
    assert(p == chunk_size * i + p % chunk_size && 0 <= p % chunk_size < chunk_size) by (nonlinear_arith)
        requires
            0 < chunk_size,
            i == p / chunk_size,
            0 <= p,
    ;
    assert(0 <= i) by (nonlinear_arith)
        requires
            0 < chunk_size,
            0 <= p,
            i == p / chunk_size,
    ;
    if i >= c {
        assert(chunk_size * i >= chunk_size * c) by (nonlinear_arith)
            requires
                i >= c,
                chunk_size > 0,
        ;
        assert(chunk_size * c == c * chunk_size) by (nonlinear_arith);
        assert(false);
    }
    crate::upload::lemma_chunk_range(size, chunk_size, i);
}

/// Position `p` of the file lies in chunk `index`.
pub open spec fn in_chunk(size: u64, chunk_size: u32, index: int, p: int) -> bool {
    let r = crate::upload::chunk_range(size as int, chunk_size as int, index);
    r.0 <= p < r.1
}

/// Some chunk of `args` covers position `p`.
pub open spec fn covered(base: UploadView, args: Seq<crate::upload::UploadingArg>, p: int) -> bool {
    exists|k: int|
        0 <= k < args.len() && #[trigger] in_chunk(base.size, base.chunk_size, args[k].index as int, p)
}

/// Some chunk of `args` has index `i`.
pub open spec fn sent(args: Seq<crate::upload::UploadingArg>, i: int) -> bool {
    exists|k: int| 0 <= k < args.len() && #[trigger] args[k].index == i
}

/// The state of an upload after some chunks: the bytes of the chunks written
/// are the content's, the others are the base's, and the chunks written are
/// marked received.
pub open spec fn partly_written(
    base: UploadView,
    args: Seq<crate::upload::UploadingArg>,
    content: Seq<u8>,
    u: UploadView,
) -> bool {
    &&& u.data.len() == base.size
    &&& u.size == base.size
    &&& u.chunk_size == base.chunk_size
    &&& u.chunks == base.chunks
    &&& u.path == base.path
    &&& u.hash == base.hash
    &&& u.chunked.len() == base.chunked.len()
    &&& forall|p: int|
        0 <= p < base.size ==> #[trigger] u.data[p] == if covered(base, args, p) {
            content[p]
        } else {
            base.data[p]
        }
    &&& forall|i: int|
        0 <= i < base.chunked.len() ==> #[trigger] u.chunked[i] == (base.chunked[i] || sent(args, i))
}

/// Chunks that all belong to one file with content `content`, each carrying
/// its own bytes of it.
pub open spec fn chunks_of_content(
    base: UploadView,
    args: Seq<crate::upload::UploadingArg>,
    content: Seq<u8>,
) -> bool {
    &&& crate::upload::sizes_ok(base.size, base.chunk_size)
    &&& base.data.len() == base.size
    &&& base.chunks == crate::upload::chunk_count(base.size as int, base.chunk_size as int)
    &&& base.chunked.len() == base.chunks
    &&& content.len() == base.size
    &&& forall|k: int|
        0 <= k < args.len() ==> {
            &&& (#[trigger] args[k]).size == base.size
            &&& args[k].chunk_size == base.chunk_size
            &&& args[k].index < base.chunks
            &&& args[k].chunk@ == chunk_of(content, base.size, base.chunk_size, args[k].index as int)
        }
}

proof fn lemma_write_all_partly(
    base: UploadView,
    args: Seq<crate::upload::UploadingArg>,
    content: Seq<u8>,
)
    requires
        chunks_of_content(base, args, content),
    ensures
        partly_written(base, args, content, write_all(base, args)),
    decreases args.len(),
{
    if args.len() > 0 {
        let rest = args.drop_last();
        assert forall|k: int| 0 <= k < rest.len() implies #[trigger] rest[k] == args[k] by {}
        assert(chunks_of_content(base, rest, content));
        lemma_write_all_partly(base, rest, content);
        let prev = write_all(base, rest);
        let a = args.last();
        assert(a == args[args.len() - 1]);
        let r = crate::upload::chunk_range(base.size as int, base.chunk_size as int, a.index as int);
        crate::upload::lemma_chunk_range(base.size as int, base.chunk_size as int, a.index as int);
        let u = write_all(base, args);
        assert(u == crate::state::write_chunk(prev, a));
        assert(u.data =~= prev.data.subrange(0, r.0) + content.subrange(r.0, r.1) + prev.data.subrange(
            r.1,
            prev.data.len() as int,
        ));
        assert forall|p: int| 0 <= p < base.size implies #[trigger] u.data[p] == if covered(
            base,
            args,
            p,
        ) {
            content[p]
        } else {
            base.data[p]
        } by {
            if r.0 <= p < r.1 {
                assert(u.data[p] == content[p]);
                assert(in_chunk(base.size, base.chunk_size, args[args.len() - 1].index as int, p));
            } else {
                assert(u.data[p] == prev.data[p]);
                if covered(base, args, p) {
                    let k = choose|k: int|
                        0 <= k < args.len() && #[trigger] in_chunk(
                            base.size,
                            base.chunk_size,
                            args[k].index as int,
                            p,
                        );
                    assert(k < rest.len());
                    assert(rest[k] == args[k]);
                    assert(covered(base, rest, p));
                }
                if covered(base, rest, p) {
                    let k = choose|k: int|
                        0 <= k < rest.len() && #[trigger] in_chunk(
                            base.size,
                            base.chunk_size,
                            rest[k].index as int,
                            p,
                        );
                    assert(rest[k] == args[k]);
                }
            }
        }
        assert forall|i: int| 0 <= i < base.chunked.len() implies #[trigger] u.chunked[i] == (
        base.chunked[i] || sent(args, i)) by {
            if i == a.index {
                assert(args[args.len() - 1].index == i);
            } else {
                if sent(args, i) {
                    let k = choose|k: int| 0 <= k < args.len() && #[trigger] args[k].index == i;
                    assert(k < rest.len());
                    assert(rest[k] == args[k]);
                    assert(sent(rest, i));
                }
                if sent(rest, i) {
                    let k = choose|k: int| 0 <= k < rest.len() && #[trigger] rest[k].index == i;
                    assert(rest[k] == args[k]);
                }
            }
        }
    }
}

/// Writing every chunk of a file into its upload, each carrying its own bytes
/// of the file, in any order and any number of times, leaves the upload
/// holding exactly the file's content with every chunk received.
pub proof fn lemma_chunks_assemble(
    base: UploadView,
    args: Seq<crate::upload::UploadingArg>,
    content: Seq<u8>,
)
    requires
        chunks_of_content(base, args, content),
        forall|i: int| 0 <= i < base.chunks ==> #[trigger] sent(args, i),
    ensures
        write_all(base, args).data == content,
        crate::state::all_received(write_all(base, args)),
{
    lemma_write_all_partly(base, args, content);
    let u = write_all(base, args);
    assert forall|p: int| 0 <= p < content.len() implies #[trigger] u.data[p] == content[p] by {
        lemma_position_in_chunk(base.size as int, base.chunk_size as int, p);
        let i = p / (base.chunk_size as int);
        assert(sent(args, i));
        let k = choose|k: int| 0 <= k < args.len() && #[trigger] args[k].index == i;
        assert(in_chunk(base.size, base.chunk_size, args[k].index as int, p));
    }
    assert(u.data =~= content);
    assert forall|i: int| 0 <= i < u.chunked.len() implies #[trigger] u.chunked[i] by {
        assert(sent(args, i));
    }
}

} // verus!

verus! {

/// Publishing a content that is already stored under its digest stores
/// nothing new: the path shares the stored content.
pub proof fn lemma_same_content_is_shared(m: StateModel, u: UploadView, now: i128)
    requires
        clean_file_model(m, u.path).assets.contains_key(content_digest(m.hashed, u)),
    ensures
        publish_model(m, u, now).assets == clean_file_model(m, u.path).assets,
        publish_model(m, u, now).files[u.path].hash == content_digest(m.hashed, u),
{
}

/// When uploaded digests are trusted and a content with the chunk's digest is
/// stored, a valid chunk of the same size publishes its path at once with
/// that content and with the headers sent with the chunk, and drops any
/// upload in progress at the path.
pub proof fn lemma_trusted_digest_publishes_at_once(
    s: &InnerState,
    arg: crate::upload::UploadingArg,
    now: i128,
)
    requires
        s.wf(),
        s.trusts_digests(),
        s.assets_view().contains_key(arg.hash@),
        crate::upload::path_and_headers_fault(arg) is None,
        crate::upload::size_and_data_fault(arg) is None,
        arg.size == s.existing_size(arg.hash@),
    ensures
        s.chunk_result(arg, now) is Ok,
        ({
            let m = s.chunk_result(arg, now)->Ok_0;
            &&& m.files.contains_key(arg.path@)
            &&& m.files[arg.path@].hash == arg.hash@
            &&& m.files[arg.path@].size == arg.size
            &&& m.files[arg.path@].headers == arg.headers@
            &&& m.files[arg.path@].path == arg.path@
            &&& m.assets.contains_key(arg.hash@)
            &&& m.assets[arg.hash@] == s.assets_view()[arg.hash@]
            &&& !m.uploading.contains_key(arg.path@)
        }),
{
    reveal(InnerState::chunk_result);
    let m = s.chunk_result(arg, now)->Ok_0;
    assert(m.files[arg.path@].hash == arg.hash@);
    assert(file_hashes(m.files).contains(arg.hash@));
}

} // verus!

verus! {

/// The chunks of one file: for one path, digest, size and chunk size, as many
/// as the file has chunks, no index twice, each carrying its own bytes of
/// `content`.
pub open spec fn whole_file_chunks(args: Seq<UploadingArg>, content: Seq<u8>) -> bool {
    let first = args[0];
    &&& args.len() > 0
    &&& args.len() == chunk_count(first.size as int, first.chunk_size as int)
    &&& content.len() == first.size
    &&& forall|k: int|
        0 <= k < args.len() ==> {
            &&& (#[trigger] args[k]).path@ == first.path@
            &&& args[k].hash@ == first.hash@
            &&& args[k].size == first.size
            &&& args[k].chunk_size == first.chunk_size
            &&& args[k].chunk@ == chunk_of(content, first.size, first.chunk_size, args[k].index as int)
        }
    &&& forall|j: int, k: int|
        0 <= j < k < args.len() ==> #[trigger] args[j].index != #[trigger] args[k].index
}

/// Among `n` chunks with distinct indices below `c`, some index below `c` is
/// missing when `n < c`, and none is when `n == c`.
proof fn lemma_distinct_indices(args: Seq<UploadingArg>, c: int, n: int)
    requires
        0 <= n <= args.len(),
        0 <= c,
        forall|k: int| 0 <= k < args.len() ==> #[trigger] args[k].index < c,
        forall|j: int, k: int|
            0 <= j < k < args.len() ==> #[trigger] args[j].index != #[trigger] args[k].index,
    ensures
        n <= c,
        n < c ==> exists|i: int| 0 <= i < c && !sent(args.take(n), i),
        n == c ==> forall|i: int| 0 <= i < c ==> sent(args.take(n), i),
{
    broadcast use vstd::seq_lib::seq_to_set_is_finite;

    let pre = args.take(n);
    let idx = pre.map_values(|a: UploadingArg| a.index as int);
    assert forall|j: int, k: int|
        0 <= j < idx.len() && 0 <= k < idx.len() && j != k implies idx[j] != idx[k] by {
        if j < k {
            assert(args[j].index != args[k].index);
        } else {
            assert(args[k].index != args[j].index);
        }
    }
    assert(idx.no_duplicates());
    idx.unique_seq_to_set();
    let s = idx.to_set();
    let r = set_int_range(0, c);
    lemma_int_range(0, c);
    assert forall|x: int| s.contains(x) implies r.contains(x) by {
        let j = choose|j: int| 0 <= j < idx.len() && idx[j] == x;
        assert(pre[j] == args[j]);
        assert(args[j].index < c);
    }
    lemma_len_subset(s, r);
    if n < c {
        if forall|i: int| 0 <= i < c ==> sent(pre, i) {
            assert forall|x: int| r.contains(x) implies s.contains(x) by {
                assert(sent(pre, x));
                let k = choose|k: int| 0 <= k < pre.len() && #[trigger] pre[k].index == x;
                assert(idx[k] == x);
            }
            lemma_len_subset(r, s);
            assert(false);
        }
    }
    if n == c {
        lemma_subset_equality(s, r);
        assert forall|i: int| 0 <= i < c implies sent(pre, i) by {
            assert(r.contains(i));
            assert(s.contains(i));
            let j = choose|j: int| 0 <= j < idx.len() && idx[j] == i;
            assert(pre[j].index == i);
        }
    }
}

/// A chunk that is accepted is a valid chunk.
proof fn lemma_accepted_chunk_is_valid(s: InnerState, arg: UploadingArg, now: i128)
    requires
        s.chunk_result(arg, now) is Ok,
    ensures
        path_and_headers_fault(arg) is None,
        size_and_data_fault(arg) is None,
{
    reveal(InnerState::chunk_result);
}

/// Every chunk of a file that an upload chain accepts fits the upload that its
/// first chunk starts.
proof fn lemma_chain_chunks_fit(
    states: Seq<InnerState>,
    args: Seq<UploadingArg>,
    times: Seq<i128>,
    content: Seq<u8>,
    n: int,
)
    requires
        upload_steps(states, args, times),
        whole_file_chunks(args, content),
        0 <= n <= args.len(),
    ensures
        chunks_of_content(fresh_upload(args[0]), args.take(n), content),
        forall|k: int| 0 <= k < args.len() ==> #[trigger] args[k].index < args.len(),
        fresh_upload(args[0]).chunks == args.len(),
{
    let first = args[0];
    let base = fresh_upload(first);
    let pre = args.take(n);
    assert forall|k: int| 0 <= k < args.len() implies size_and_data_fault(#[trigger] args[k]) is None by {
        assert(states[k].wf());
        lemma_accepted_chunk_is_valid(states[k], args[k], times[k]);
    }
    assert(size_and_data_fault(args[0]) is None);
    lemma_chunk_count(first.size as int, first.chunk_size as int);
    assert forall|k: int| 0 <= k < args.len() implies #[trigger] args[k].index < args.len() by {
        assert(size_and_data_fault(args[k]) is None);
    }
    assert forall|k: int| 0 <= k < pre.len() implies {
        &&& (#[trigger] pre[k]).size == base.size
        &&& pre[k].chunk_size == base.chunk_size
        &&& pre[k].index < base.chunks
        &&& pre[k].chunk@ == chunk_of(content, base.size, base.chunk_size, pre[k].index as int)
    } by {
        assert(pre[k] == args[k]);
        assert(args[k].index < args.len());
    }
}

} // verus!

verus! {

/// What an upload chain of the chunks of one file does, chunk by chunk: until
/// the last chunk the chunks only build the upload at the path, and the last
/// one publishes it.
proof fn lemma_upload_steps(
    states: Seq<InnerState>,
    args: Seq<UploadingArg>,
    times: Seq<i128>,
    content: Seq<u8>,
    k: int,
)
    requires
        upload_steps(states, args, times),
        whole_file_chunks(args, content),
        !states[0].uploading_view().contains_key(args[0].path@),
        !(states[0].trusts_digests() && states[0].assets_view().contains_key(args[0].hash@)),
        1 <= k <= args.len(),
    ensures
        k < args.len() ==> states[k].model() == (StateModel {
            uploading: states[0].model().uploading.insert(
                args[0].path@,
                write_all(fresh_upload(args[0]), args.take(k)),
            ),
            ..states[0].model()
        }),
        k == args.len() ==> states[k].model() == publish_model(
            states[0].model(),
            write_all(fresh_upload(args[0]), args),
            times.last(),
        ),
    decreases k,
{
    let m = states[0].model();
    let path = args[0].path@;
    let base = fresh_upload(args[0]);
    let j = k - 1;
    let arg = args[j];
    if j >= 1 {
        lemma_upload_steps(states, args, times, content, j);
    }
    let mj = states[j].model();
    assert(mj.hashed == m.hashed && mj.assets == m.assets && mj.files == m.files);
    assert(states[j].wf());
    assert(states[j].chunk_result(arg, times[j]) == Ok::<StateModel, crate::upload::UploadError>(
        states[k].model(),
    ));
    lemma_chain_chunks_fit(states, args, times, content, j);
    lemma_chain_chunks_fit(states, args, times, content, k);
    lemma_write_all_partly(base, args.take(j), content);
    lemma_write_all_partly(base, args.take(k), content);
    let w = write_all(base, args.take(j));
    let u = write_all(base, args.take(k));
    assert(args.take(k).drop_last() =~= args.take(j));
    assert(args.take(k).last() == arg);
    assert(u == crate::state::write_chunk(w, arg));
    if j == 0 {
        assert(args.take(0) =~= Seq::<UploadingArg>::empty());
        assert(w == base);
    }
    assert(arg.path@ == path && arg.hash@ == args[0].hash@);
    assert(arg.size == args[0].size && arg.chunk_size == args[0].chunk_size);
    lemma_accepted_chunk_is_valid(states[j], arg, times[j]);
    lemma_distinct_indices(args, args.len() as int, k);
    assert forall|i: int| 0 <= i < base.chunked.len() implies !#[trigger] base.chunked[i] by {}
    if k < args.len() {
        let i = choose|i: int| 0 <= i < args.len() && !sent(args.take(k), i);
        assert(!u.chunked[i]);
        assert(!crate::state::all_received(u));
    } else {
        assert(args.take(k) =~= args);
        assert forall|i: int| 0 <= i < u.chunked.len() implies #[trigger] u.chunked[i] by {
            assert(sent(args.take(k), i));
        }
        assert(crate::state::all_received(u));
    }
    reveal(InnerState::chunk_result);
    if j >= 1 {
        assert(mj.uploading.contains_key(path));
        assert(mj.uploading[path] == w);
        assert(crate::state::upload_matches(w, arg));
    }
    if k < args.len() {
        assert(mj.uploading.insert(path, u) =~= m.uploading.insert(path, u));
    } else {
        assert(mj.uploading.remove(path) =~= m.uploading);
        assert((StateModel { uploading: mj.uploading.remove(path), ..mj }) == m);
    }
}

/// Sending every chunk of a file, each once, in any order and at any times
/// (in one call or several, see `lemma_steps_join`), to a path with
/// no upload in progress publishes the path when the last chunk arrives, and
/// a direct download of the path then gives the file back. This holds when
/// the chunks are not published at once under a trusted digest that is
/// already stored, when any content already stored under the file's digest
/// is this file, and when the file is small enough for a direct query.
pub proof fn lemma_upload_then_download(
    states: Seq<InnerState>,
    args: Seq<UploadingArg>,
    times: Seq<i128>,
    content: Seq<u8>,
)
    requires
        upload_steps(states, args, times),
        whole_file_chunks(args, content),
        !states[0].uploading_view().contains_key(args[0].path@),
        !(states[0].trusts_digests() && states[0].assets_view().contains_key(args[0].hash@)),
        args[0].size <= max_direct_download(),
        ({
            let m0 = clean_file_model(states[0].model(), args[0].path@);
            let h = if states[0].trusts_digests() {
                args[0].hash@
            } else {
                sha256(content)
            };
            m0.assets.contains_key(h) ==> m0.assets[h] == content
        }),
    ensures
        download_result(states.last().files_view(), states.last().assets_view(), args[0].path@)
            == Ok::<Seq<u8>, crate::assets::DownloadError>(content),
{
    let n = args.len() as int;
    let base = fresh_upload(args[0]);
    lemma_upload_steps(states, args, times, content, n);
    lemma_chain_chunks_fit(states, args, times, content, n);
    assert(args.take(n) =~= args);
    lemma_distinct_indices(args, n, n);
    assert forall|i: int| 0 <= i < base.chunks implies #[trigger] sent(args, i) by {
        assert(sent(args.take(n), i));
    }
    lemma_chunks_assemble(base, args, content);
    lemma_write_all_partly(base, args, content);
    let u = write_all(base, args);
    lemma_publish_then_download(states[0].model(), u, times.last());
}

} // verus!

verus! {

/// The digest under which the chunks `args` of a file with content `content`
/// are stored when published from state `s`: the digest sent with them when
/// uploaded digests are trusted, else the SHA-256 value of the content.
pub open spec fn published_digest(s: InnerState, args: Seq<UploadingArg>, content: Seq<u8>) -> Seq<u8> {
    if s.trusts_digests() {
        args[0].hash@
    } else {
        sha256(content)
    }
}

/// Sending every chunk of a file, each once, in any order and at any times
/// (in one call or several, see `lemma_steps_join`), to a path with
/// no upload in progress publishes the path when the last chunk arrives: the
/// path names a file of the content's size, with the headers of the last
/// chunk and the content's digest, under which the content is stored; no
/// upload stays in progress at the path; and reading any range of the file
/// that fits a direct query gives that range of the content. This holds
/// when the chunks are not published at once under a trusted digest that is
/// already stored, and when any content already stored under the file's
/// digest is this file.
pub proof fn lemma_upload_then_read(
    states: Seq<InnerState>,
    args: Seq<UploadingArg>,
    times: Seq<i128>,
    content: Seq<u8>,
)
    requires
        upload_steps(states, args, times),
        whole_file_chunks(args, content),
        !states[0].uploading_view().contains_key(args[0].path@),
        !(states[0].trusts_digests() && states[0].assets_view().contains_key(args[0].hash@)),
        ({
            let m0 = clean_file_model(states[0].model(), args[0].path@);
            let h = published_digest(states[0], args, content);
            m0.assets.contains_key(h) ==> m0.assets[h] == content
        }),
    ensures
        ({
            let last = states.last();
            let p = args[0].path@;
            let h = published_digest(states[0], args, content);
            &&& last.files_view().contains_key(p)
            &&& last.files_view()[p].size == content.len()
            &&& last.files_view()[p].headers == args.last().headers@
            &&& last.files_view()[p].hash == h
            &&& last.assets_view().contains_key(h)
            &&& last.assets_view()[h] == content
            &&& !last.uploading_view().contains_key(p)
            &&& forall|offset: u64, size: u64|
                size <= max_direct_download() && offset + size <= content.len() ==> #[trigger] download_by_result(
                    last.files_view(),
                    last.assets_view(),
                    p,
                    offset,
                    size,
                ) == Ok::<Seq<u8>, crate::assets::DownloadError>(
                    content.subrange(offset as int, offset + size),
                )
        }),
{
    let n = args.len() as int;
    let base = fresh_upload(args[0]);
    lemma_upload_steps(states, args, times, content, n);
    lemma_chain_chunks_fit(states, args, times, content, n);
    assert(args.take(n) =~= args);
    lemma_distinct_indices(args, n, n);
    assert forall|i: int| 0 <= i < base.chunks implies #[trigger] sent(args, i) by {
        assert(sent(args.take(n), i));
    }
    lemma_chunks_assemble(base, args, content);
    lemma_write_all_partly(base, args, content);
    let u = write_all(base, args);
    assert(u.headers == args.last().headers@);
    assert(u.size == args[0].size);
    assert(content_digest(states[0].model().hashed, u) == published_digest(states[0], args, content));
    let last = states.last();
    assert(last.model() == publish_model(states[0].model(), u, times.last()));
    assert(u.size <= crate::upload::MAX_ASSET_FILE_SIZE);
}

} // verus!

verus! {

/// Dropping an entry, or keeping only some entries, of a finite map of
/// non-negative weights does not raise its sum nor its number of keys.
proof fn lemma_limits_shrink<K, V>(part: Map<K, V>, m: Map<K, V>, w: spec_fn(V) -> int)
    requires
        m.dom().finite(),
        part.dom().subset_of(m.dom()),
        forall|k: K| #[trigger] part.contains_key(k) ==> part[k] == m[k],
        forall|k: K| #[trigger] m.contains_key(k) ==> w(m[k]) >= 0,
    ensures
        part.dom().finite(),
        part.dom().len() <= m.dom().len(),
        map_sum(part, w) <= map_sum(m, w),
{
    lemma_map_sum_sub(part, m, w);
    lemma_len_subset(part.dom(), m.dom());
}

/// An accepted chunk keeps the storage within its limits: at most
/// `MAX_ACTIVE_UPLOADS` uploads in progress, and at most
/// `MAX_ASSET_STATE_BYTES` bytes of stored contents and uploads in progress.
pub proof fn lemma_accepted_chunk_keeps_limits(s: &InnerState, arg: UploadingArg, now: i128)
    requires
        s.wf(),
        within_limits(s.model()),
        s.chunk_result(arg, now) is Ok,
    ensures
        within_limits(s.chunk_result(arg, now)->Ok_0),
{
    reveal(InnerState::chunk_result);
    s.lemma_capacity_measures();
    let m = s.model();
    let p = arg.path@;
    let m2 = s.chunk_result(arg, now)->Ok_0;
    let up = m.uploading;
    let rest = up.remove(p);
    assert(rest.dom() =~= up.dom().remove(p));
    lemma_limits_shrink(rest, up, upload_size());
    if up.contains_key(p) {
        lemma_map_sum_remove(up, upload_size(), p);
    } else {
        assert(rest =~= up);
    }
    lemma_accepted_chunk_is_valid(*s, arg, now);
    lemma_chunk_count(arg.size as int, arg.chunk_size as int);
    crate::upload::lemma_chunk_range(arg.size as int, arg.chunk_size as int, arg.index as int);
    if m.hashed && m.assets.contains_key(arg.hash@) {
        lemma_limits_shrink(m2.assets, m.assets, content_len());
        assert(m2.uploading == rest);
    } else {
        let matched = up.contains_key(p) && crate::state::upload_matches(up[p], arg);
        let base = if matched {
            up[p]
        } else {
            fresh_upload(arg)
        };
        let u = crate::state::write_chunk(base, arg);
        assert(u.data.len() == arg.size);
        assert(u.size == arg.size);
        if crate::state::all_received(u) {
            let mr = StateModel { uploading: rest, ..m };
            let m0 = clean_file_model(mr, u.path);
            assert(u.path == p);
            lemma_limits_shrink(m0.assets, m.assets, content_len());
            let h = content_digest(m.hashed, u);
            if !m0.assets.contains_key(h) {
                lemma_map_sum_insert(m0.assets, content_len(), h, u.data);
            }
            assert(m2.uploading == rest);
        } else {
            assert(m2.uploading == up.insert(p, u));
            lemma_map_sum_remove(up.insert(p, u), upload_size(), p);
            assert(up.insert(p, u).remove(p) =~= rest);
            assert(up.insert(p, u).dom() =~= rest.dom().insert(p));
            if up.contains_key(p) {
                assert(up.dom() =~= rest.dom().insert(p));
            }
        }
    }
}

/// Deleting paths keeps the storage within its limits.
pub proof fn lemma_delete_keeps_limits(m: StateModel, names: Seq<String>)
    requires
        within_limits(m),
    ensures
        within_limits(delete_model(m, names)),
    decreases names.len(),
{
    if names.len() > 0 {
        lemma_delete_keeps_limits(m, names.drop_last());
        let m1 = delete_model(m, names.drop_last());
        let p = names.last()@;
        let rest = m1.uploading.remove(p);
        assert(rest.dom() =~= m1.uploading.dom().remove(p));
        lemma_limits_shrink(rest, m1.uploading, upload_size());
        let m2 = clean_file_model(StateModel { uploading: rest, ..m1 }, p);
        lemma_limits_shrink(m2.assets, m1.assets, content_len());
    }
}

} // verus!

verus! {

/// An accepted chunk either leaves an upload in progress at its path, or
/// publishes the path: with the headers sent with that chunk, the size it
/// declares, and the time it arrived; the published file is the path's.
pub proof fn lemma_accepted_chunk_publishes_with_its_headers(s: &InnerState, arg: UploadingArg, now: i128)
    requires
        s.wf(),
        s.chunk_result(arg, now) is Ok,
    ensures
        ({
            let m = s.chunk_result(arg, now)->Ok_0;
            !m.uploading.contains_key(arg.path@) ==> {
                &&& m.files.contains_key(arg.path@)
                &&& m.files[arg.path@].path == arg.path@
                &&& m.files[arg.path@].headers == arg.headers@
                &&& m.files[arg.path@].size == arg.size
                &&& m.files[arg.path@].modified == now
            }
        }),
{
    reveal(InnerState::chunk_result);
    lemma_accepted_chunk_is_valid(*s, arg, now);
}

} // verus!
