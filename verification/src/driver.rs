//! Stream driver: feeds a sequence of read blocks through the chunker,
//! flushes the final partial chunk, and emits one compressed artifact per
//! chunk. The artifacts are a function of the configuration and the blocks
//! alone, so a rerun over the same input produces byte-identical artifacts.

use vstd::prelude::*;

use crate::boundary::MAX_SCAN;
use crate::chunker::{
    all_aligned, finish_spec, init_model, push_spec, Chunker, ChunkerModel,
};
use crate::config::{Config, ConfigModel};
use crate::emit::{artifact_name, compressed_of, emit_chunk, Artifact, CodecError,
    COMPRESSION_LEVEL};

verus! {

/// The accumulator state after feeding `blocks` in order.
pub open spec fn feed_all(m: ChunkerModel, blocks: Seq<Seq<u8>>) -> ChunkerModel
    decreases blocks.len(),
{
    if blocks.len() == 0 {
        m
    } else {
        feed_all(push_spec(m, blocks[0]).0, blocks.skip(1))
    }
}

pub proof fn lemma_feed_all_snoc(m: ChunkerModel, blocks: Seq<Seq<u8>>, b: Seq<u8>)
    ensures
        feed_all(m, blocks.push(b)) == push_spec(feed_all(m, blocks), b).0,
    decreases blocks.len(),
{
    if blocks.len() == 0 {
        assert(blocks.push(b)[0] == b);
        assert(blocks.push(b).skip(1) =~= Seq::<Seq<u8>>::empty());
        assert(feed_all(m, blocks.push(b)) == feed_all(
            push_spec(m, b).0,
            blocks.push(b).skip(1),
        ));
        assert(feed_all(push_spec(m, b).0, Seq::<Seq<u8>>::empty()) == push_spec(m, b).0);
        assert(feed_all(m, blocks) == m);
    } else {
        assert(blocks.push(b)[0] == blocks[0]);
        assert(blocks.push(b).skip(1) =~= blocks.skip(1).push(b));
        assert(feed_all(m, blocks.push(b)) == feed_all(
            push_spec(m, blocks[0]).0,
            blocks.skip(1).push(b),
        ));
        lemma_feed_all_snoc(push_spec(m, blocks[0]).0, blocks.skip(1), b);
        assert(feed_all(m, blocks) == feed_all(push_spec(m, blocks[0]).0, blocks.skip(1)));
    }
}

pub proof fn lemma_feed_all_concat(m: ChunkerModel, a: Seq<Seq<u8>>, b: Seq<Seq<u8>>)
    ensures
        feed_all(m, a + b) == feed_all(feed_all(m, a), b),
    decreases a.len(),
{
    if a.len() == 0 {
        assert(a + b =~= b);
        assert(feed_all(m, a) == m);
    } else {
        assert((a + b)[0] == a[0]);
        assert((a + b).skip(1) =~= a.skip(1) + b);
        assert(feed_all(m, a + b) == feed_all(push_spec(m, a[0]).0, a.skip(1) + b));
        lemma_feed_all_concat(push_spec(m, a[0]).0, a.skip(1), b);
        assert(feed_all(m, a) == feed_all(push_spec(m, a[0]).0, a.skip(1)));
    }
}

/// Feeding more blocks never takes an emitted chunk back.
pub proof fn lemma_feed_all_emitted_monotone(m: ChunkerModel, blocks: Seq<Seq<u8>>)
    ensures
        feed_all(m, blocks).emitted.len() >= m.emitted.len(),
    decreases blocks.len(),
{
    if blocks.len() > 0 {
        assert(push_spec(m, blocks[0]).0.emitted.len() >= m.emitted.len());
        lemma_feed_all_emitted_monotone(push_spec(m, blocks[0]).0, blocks.skip(1));
        assert(feed_all(m, blocks) == feed_all(push_spec(m, blocks[0]).0, blocks.skip(1)));
    }
}

/// The chunks a whole run emits: feed every block, then flush.
pub open spec fn run_emitted(c: ConfigModel, blocks: Seq<Seq<u8>>) -> Seq<Seq<u8>> {
    finish_spec(feed_all(init_model(c), blocks)).0.emitted
}

/// Law: the chunks of a run, and with them the compressed artifacts and
/// their names, are a function of the configuration and the input blocks
/// alone: rerunning with the same input and configuration yields identical
/// output files.
pub proof fn lemma_rerun_identical(
    c: ConfigModel,
    blocks: Seq<Seq<u8>>,
    first: Seq<Seq<u8>>,
    second: Seq<Seq<u8>>,
)
    requires
        first == run_emitted(c, blocks),
        second == run_emitted(c, blocks),
    ensures
        first == second,
        first.len() == second.len() && forall|i: int|
            0 <= i < first.len() ==> compressed_of(#[trigger] first[i], COMPRESSION_LEVEL as int)
                == compressed_of(second[i], COMPRESSION_LEVEL as int),
{
}

/// The total byte count of a sequence of blocks.
pub open spec fn total_len(bs: Seq<Seq<u8>>) -> int
    decreases bs.len(),
{
    if bs.len() == 0 {
        0
    } else {
        total_len(bs.drop_last()) + bs.last().len()
    }
}

pub proof fn lemma_total_len_take(bs: Seq<Seq<u8>>, k: int)
    requires
        0 <= k <= bs.len(),
    ensures
        total_len(bs.take(k)) <= total_len(bs),
        total_len(bs.take(k)) >= 0,
    decreases bs.len() - k,
{
    if k == bs.len() {
        assert(bs.take(k) =~= bs);
        lemma_total_len_nonneg(bs);
    } else {
        lemma_total_len_take(bs, k + 1);
        assert(bs.take(k + 1).drop_last() =~= bs.take(k));
        assert(bs.take(k + 1).last() == bs[k]);
        lemma_total_len_nonneg(bs.take(k));
    }
}

pub proof fn lemma_total_len_nonneg(bs: Seq<Seq<u8>>)
    ensures
        total_len(bs) >= 0,
    decreases bs.len(),
{
    if bs.len() > 0 {
        lemma_total_len_nonneg(bs.drop_last());
    }
}

/// Runs the whole pipeline over pre-read blocks: chunks them, flushes the
/// tail, and compresses and names each chunk. On success the artifacts are
/// exactly those of the run's emitted chunks, in index order.
pub fn run(config: &Config, blocks: &Vec<Vec<u8>>) -> (r: Result<Vec<Artifact>, CodecError>)
    requires
        config.wf(),
        forall|i: int| 0 <= i < blocks@.len() ==> (#[trigger] blocks@[i])@.len() <= MAX_SCAN,
        total_len(blocks.deep_view()) < usize::MAX,
        config@.output_prefix.len() + 9 <= usize::MAX,
    ensures
        r matches Ok(arts) ==> {
            let emitted = run_emitted(config@, blocks.deep_view());
            &&& arts@.len() == emitted.len()
            &&& forall|i: int|
                0 <= i < emitted.len() ==> (#[trigger] arts@[i]).name@ == artifact_name(
                    config@.output_prefix,
                    i + 1,
                ) && arts@[i].data@ == compressed_of(emitted[i], COMPRESSION_LEVEL as int)
        },
        r is Err ==> run_emitted(config@, blocks.deep_view()).len() > 0,
        run_emitted(config@, blocks.deep_view()).len() == 0 ==> r is Ok,
{
    let ghost dv = blocks.deep_view();
    proof {
        assert(dv.len() == blocks@.len());
        assert(forall|i: int| 0 <= i < blocks@.len() ==> dv[i] == (#[trigger] blocks@[i])@);
    }
    let mut chunker = Chunker::new(config);
    let mut arts: Vec<Artifact> = Vec::new();
    let mut k: usize = 0;
    proof {
        assert(dv.take(0) =~= Seq::<Seq<u8>>::empty());
    }
    while k < blocks.len()
        invariant
            k <= blocks@.len(),
            dv == blocks.deep_view(),
            dv.len() == blocks@.len(),
            forall|i: int| 0 <= i < blocks@.len() ==> dv[i] == (#[trigger] blocks@[i])@,
            forall|i: int| 0 <= i < dv.len() ==> (#[trigger] dv[i]).len() <= MAX_SCAN,
            total_len(dv) < usize::MAX,
            config.wf(),
            config@.output_prefix.len() + 9 <= usize::MAX,
            chunker.inv(),
            all_aligned(chunker@),
            chunker@ == feed_all(init_model(config@), dv.take(k as int)),
            chunker@.fed.len() == total_len(dv.take(k as int)),
            arts@.len() == chunker@.emitted.len(),
            forall|i: int|
                0 <= i < arts@.len() ==> (#[trigger] arts@[i]).name@ == artifact_name(
                    config@.output_prefix,
                    i + 1,
                ) && arts@[i].data@ == compressed_of(chunker@.emitted[i], COMPRESSION_LEVEL as int),
        decreases blocks@.len() - k,
    {
        let ghost m0 = chunker@;
        proof {
            assert(dv.take(k + 1).drop_last() =~= dv.take(k as int));
            assert(dv.take(k + 1).last() == dv[k as int]);
            lemma_total_len_take(dv, k + 1);
        }
        let (emitted, _warn) = chunker.push(&blocks[k]);
        proof {
            lemma_feed_all_snoc(init_model(config@), dv.take(k as int), dv[k as int]);
            assert(dv.take(k + 1) =~= dv.take(k as int).push(dv[k as int]));
        }
        match emitted {
            Some(e) => {
                proof {
                    assert(chunker@.emitted == m0.emitted.push(e.bytes@));
                    assert(e.index as int == m0.emitted.len() + 1);
                }
                let art = match emit_chunk(&e.bytes, &config.output_prefix, e.index) {
                    Ok(a) => a,
                    Err(err) => {
                        proof {
                            // A chunk was already emitted, so the whole run
                            // emits at least one.
                            assert(dv =~= dv.take(k + 1) + dv.skip(k + 1));
                            lemma_feed_all_concat(
                                init_model(config@),
                                dv.take(k + 1),
                                dv.skip(k + 1),
                            );
                            lemma_feed_all_emitted_monotone(chunker@, dv.skip(k + 1));
                            assert(feed_all(init_model(config@), dv).emitted.len() >= 1);
                            assert(run_emitted(config@, dv).len() >= 1);
                        }
                        return Err(err);
                    },
                };
                arts.push(art);
            },
            None => {},
        }
        k = k + 1;
    }
    proof {
        assert(dv.take(dv.len() as int) =~= dv);
    }
    let ghost m1 = chunker@;
    match chunker.finish() {
        Some(e) => {
            proof {
                assert(chunker@.emitted == m1.emitted.push(e.bytes@));
                assert(e.index as int == m1.emitted.len() + 1);
            }
            let art = match emit_chunk(&e.bytes, &config.output_prefix, e.index) {
                Ok(a) => a,
                Err(err) => {
                    proof {
                        assert(run_emitted(config@, dv).len() >= 1);
                    }
                    return Err(err);
                },
            };
            arts.push(art);
        },
        None => {},
    }
    proof {
        assert(chunker@.emitted == run_emitted(config@, dv));
    }
    Ok(arts)
}

} // verus!

