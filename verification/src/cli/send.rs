//! Sending a file: which datagrams leave, and in which order.
use vstd::prelude::*;

use crate::cli::digest;
use crate::cli::digest::file_digest;
use crate::cli::file;
use crate::cli::file::{chunk, symbol_count};
use crate::cli::frames;
use crate::cli::frames::{build_start_frame, StartModel};
use crate::cli::prng;
use crate::cli::prng::LossSimulator;
use crate::cli::{AltcMode, Strategy};
use crate::codec::encoder;
use crate::codec::encoder::model;
use crate::codec::encoder::model::{EncoderModel, OutputModel};
use crate::codec::laws;
use crate::codec::{DefaultEncoder, Encoder, EncoderOutput};
use crate::config::{BackpressureMode, EncoderConfig, EncoderParams, Field};
use crate::error::Result;
use crate::policy::defaults::{AnyAckPolicy, ConstantFecRate, NoCongestionControl};
use crate::policy::ReceiverId;

verus! {

/// How a file is sent.
#[derive(Debug, Clone, Copy)]
pub struct SendSettings {
    pub symbol_size: usize,
    pub window: usize,
    pub fec_n: usize,
    pub fec_d: usize,
    pub strategy: Strategy,
    pub altc: AltcMode,
    /// The number of symbols that [`AltcMode::Recent`] covers.
    pub altc_recent: usize,
    /// The receiver that [`AltcMode::PerReceiver`] looks at.
    pub receiver: ReceiverId,
    /// How many packets out of a hundred are dropped.
    pub loss_percent: u32,
}

impl SendSettings {
    /// The parameters of the encoder.  The window slides as the file goes by.
    pub open spec fn encoder(self) -> EncoderParams {
        EncoderParams {
            symbol_size: self.symbol_size,
            window_capacity: self.window,
            field: Field::Gf2_8,
            fec_numer: self.fec_n,
            fec_denom: self.fec_d,
            backpressure: BackpressureMode::EvictOldest,
            matrix_strategy: self.strategy.matrix(),
        }
    }

    /// What one more coded packet covers.
    pub open spec fn cover(self, m: EncoderModel) -> Seq<u32> {
        match self.altc {
            AltcMode::Off => Seq::empty(),
            AltcMode::Recent => m.recent(self.altc_recent as nat),
            AltcMode::PerReceiver => m.unacked(self.receiver),
        }
    }
}

/// Datagrams to send.
#[derive(Debug)]
pub struct Batch {
    /// The packets that survived.
    pub packets: Vec<EncoderOutput>,
    /// The number of packets that were dropped.
    pub dropped: usize,
    /// The sender should pause for a moment afterwards.
    pub pause: bool,
}

/// A packet, if there is one.
pub open spec fn if_any(o: Option<EncoderOutput>) -> Seq<OutputModel> {
    match o {
        Some(out) => seq![out@],
        None => Seq::empty(),
    }
}

/// `n` coded packets over the whole window.
pub open spec fn coded_run(m: EncoderModel, n: nat) -> Seq<OutputModel> {
    Seq::new(
        n,
        |i: int|
            OutputModel::Coded(m.after_coded_n(i as nat).coded_packet(m.ids(), Seq::empty())),
    )
}

/// A file on its way.
pub struct FileSender {
    settings: SendSettings,
    encoder: DefaultEncoder,
    data: Vec<u8>,
    n_symbols: usize,
    next: usize,
    loss: LossSimulator,
}

impl FileSender {
    /// The settings.
    pub closed spec fn setup(&self) -> SendSettings {
        self.settings
    }

    /// The encoder.
    pub closed spec fn inner(&self) -> DefaultEncoder {
        self.encoder
    }

    /// The file.
    pub closed spec fn contents(&self) -> Seq<u8> {
        self.data@
    }

    /// The number of symbols that have been sent.
    pub closed spec fn position(&self) -> nat {
        self.next as nat
    }

    /// What decides on the packets that are dropped.
    pub closed spec fn dice(&self) -> LossSimulator {
        self.loss
    }

    /// The number of symbols of the file.
    pub open spec fn total(&self) -> nat {
        file::count_of(self.contents().len(), self.setup().symbol_size as nat)
    }

    /// The symbol that is sent next.
    pub open spec fn current(&self) -> Seq<u8> {
        file::chunk_of(self.contents(), self.setup().symbol_size as nat, self.position())
    }

    /// The invariant: symbol `i` of the file is sent under the id `i`.
    pub closed spec fn wf(&self) -> bool {
        &&& self.encoder.wf()
        &&& self.encoder@.params == self.settings.encoder()
        &&& self.encoder@.next_id == self.next
        &&& self.settings.encoder().rejection() is None
        &&& self.n_symbols == self.total()
        &&& self.next <= self.n_symbols
    }

    /// What a well-formed sender guarantees.
    pub proof fn lemma_wf(&self)
        requires
            self.wf(),
        ensures
            self.inner().wf(),
            self.inner()@.params == self.setup().encoder(),
            self.inner()@.next_id == self.position(),
            self.position() <= self.total(),
            self.setup().encoder().rejection() is None,
            self.contents().len() <= usize::MAX,
    {
        assert(self.data.len() == self.data@.len());
    }

    /// Starts to send a file.  `seed` is the seed of the simulated loss.
    pub fn new(data: Vec<u8>, settings: SendSettings, seed: u64) -> (r: Result<Self>)
        ensures
            match r {
                Ok(s) => {
                    &&& settings.encoder().rejection() is None
                    &&& s.wf()
                    &&& s.setup() == settings
                    &&& s.contents() == data@
                    &&& s.position() == 0
                    &&& s.inner()@ == EncoderModel::initial(settings.encoder())
                    &&& s.inner().rate().rate_numer() == settings.fec_n
                    &&& s.inner().rate().rate_denom() == settings.fec_d
                    &&& s.inner().rate().accumulated() == 0
                    &&& s.dice().percent == settings.loss_percent
                    &&& s.dice().rng.state == (if seed == 0 { prng::DEFAULT_SEED } else { seed })
                },
                Err(e) => settings.encoder().rejection() == Some(e),
            },
    {
        let config = match EncoderConfig::builder(settings.symbol_size).window_capacity(
            settings.window,
        ).fec_rate(settings.fec_n, settings.fec_d).matrix_strategy(
            settings.strategy.into_delp(),
        ).backpressure(BackpressureMode::EvictOldest).build() {
            Ok(c) => c,
            Err(e) => return Err(e),
        };
        let encoder = Encoder::new(
            config,
            AnyAckPolicy,
            NoCongestionControl,
            ConstantFecRate::new(settings.fec_n, settings.fec_d),
        );
        let n_symbols: usize = symbol_count(data.len(), settings.symbol_size);
        Ok(
            Self {
                settings,
                encoder,
                data,
                n_symbols,
                next: 0,
                loss: LossSimulator::new(seed, settings.loss_percent),
            },
        )
    }

    /// What the START frame says of the file.
    pub open spec fn announcement(&self) -> StartModel {
        StartModel {
            symbol_size: self.setup().symbol_size as u16,
            n_symbols: (self.total() % 0x1_0000_0000) as u32,
            file_size: self.contents().len() as u64,
            sha256: digest::sha256(self.contents()),
        }
    }

    /// The START frame of the file.
    pub fn start_frame(&self) -> (r: Vec<u8>)
        requires
            self.wf(),
        ensures
            r@ == frames::start_bytes(self.announcement()),
    {
        let sha256 = file_digest(self.data.as_slice());
        let n: u64 = self.n_symbols as u64 % 0x1_0000_0000;
        build_start_frame(
            self.settings.symbol_size as u16,
            n as u32,
            self.data.len() as u64,
            &sha256,
        )
    }

    /// The next symbol leads to the packets `out`, after which the encoder is `mid`,
    /// and to the targeted packet `extra` that may follow.
    pub open spec fn encoded(
        pre: Self,
        mid: DefaultEncoder,
        out: Vec<EncoderOutput>,
        extra: Option<EncoderOutput>,
        post: Self,
    ) -> bool {
        &&& Encoder::submitted(pre.inner(), pre.current(), Ok(out), mid)
        &&& Encoder::generated(mid, pre.setup().cover(mid@), Ok(extra), post.inner())
        &&& post.position() == pre.position() + 1
    }

    /// `b` holds what is left of the packets `all`.
    pub open spec fn diced(pre: Self, all: Seq<OutputModel>, b: Batch, post: Self) -> bool {
        &&& encoder::outputs(b.packets@) == prng::survivors(
            all,
            pre.dice().rng.state,
            pre.dice().percent,
        )
        &&& b.dropped == all.len() - b.packets@.len()
        &&& post.dice().rng.state == prng::stepped_n(pre.dice().rng.state, all.len())
        &&& post.dice().percent == pre.dice().percent
    }

    /// `r` and `post` are what the next symbol leads to, if there is one.
    pub open spec fn stepped(pre: Self, r: Result<Option<Batch>>, post: Self) -> bool {
        match r {
            Ok(Some(b)) => {
                &&& pre.position() < pre.total()
                &&& exists|
                    mid: DefaultEncoder,
                    out: Vec<EncoderOutput>,
                    extra: Option<EncoderOutput>,
                | #[trigger]
                    Self::encoded(pre, mid, out, extra, post) && Self::diced(
                        pre,
                        encoder::outputs(out@) + if_any(extra),
                        b,
                        post,
                    )
                &&& b.pause == (pre.position() % 32 == 31)
            },
            Ok(None) => pre.position() == pre.total() && post == pre,
            Err(e) => {
                &&& pre.position() < pre.total()
                &&& Encoder::submitted(pre.inner(), pre.current(), Err(e), post.inner())
                &&& post.position() == pre.position()
                &&& post.dice() == pre.dice()
            },
        }
    }

    /// Sends the next symbol, or nothing behind the end of the file.
    pub fn next_batch(&mut self) -> (r: Result<Option<Batch>>)
        requires
            old(self).wf(),
        ensures
            final(self).wf(),
            final(self).setup() == old(self).setup(),
            final(self).contents() == old(self).contents(),
            Self::stepped(*old(self), r, *final(self)),
    {
        if self.next >= self.n_symbols {
            return Ok(None);
        }
        let i: usize = self.next;
        let symbol = chunk(self.data.as_slice(), self.settings.symbol_size, i);
        let mut out = match self.encoder.submit_source(symbol) {
            Ok(out) => out,
            Err(e) => return Err(e),
        };
        let ghost plain = out;
        let ghost mid = self.encoder;
        proof {
            old(self).encoder.lemma_wf();
            model::lemma_after_push_wf(old(self).encoder@, old(self).current());
            laws::lemma_after_coded_n(
                old(self).encoder@.after_push(old(self).current()),
                (out@.len() - 1) as nat,
            );
        }
        let ghost cover = self.settings.cover(mid@);
        let generated = match self.settings.altc {
            AltcMode::Off => Ok(None),
            AltcMode::Recent => self.encoder.generate_coded_recent(self.settings.altc_recent),
            AltcMode::PerReceiver => self.encoder.generate_coded_for_receiver(
                self.settings.receiver,
            ),
        };
        assert(Encoder::generated(mid, cover, generated, self.encoder));
        let extra = match generated {
            Ok(o) => o,
            Err(e) => {
                assert(false);
                return Err(e);
            },
        };
        let ghost extra_out = extra;
        if let Some(o) = extra {
            out.push(o);
        }
        proof {
            assert(encoder::outputs(out@) =~= encoder::outputs(plain@) + if_any(extra_out));
        }
        let n: usize = out.len();
        let packets = self.loss.filter(out);
        let dropped: usize = n - packets.len();
        self.next = i + 1;
        let b = Batch { packets, dropped, pause: i % 32 == 31 };
        proof {
            assert(Self::encoded(*old(self), mid, plain, extra_out, *self));
        }
        Ok(Some(b))
    }

    /// The number of coded packets at the end of the file.
    pub open spec fn closing(&self) -> nat {
        if self.inner()@.window.len() == 0 {
            0
        } else {
            2 * self.setup().window as nat
        }
    }

    /// `b` and `post` are what the end of the file leads to.
    pub open spec fn flushed(pre: Self, b: Batch, post: Self) -> bool {
        let m = pre.inner()@;
        &&& post.inner()@ == m.after_coded_n(pre.closing())
        &&& Self::diced(pre, coded_run(m, pre.closing()), b, post)
        &&& !b.pause
    }

    /// Sends coded packets over what is left in the window, twice as many as it can
    /// hold, so that the last symbols are protected too.
    pub fn flush(&mut self) -> (b: Batch)
        requires
            old(self).wf(),
        ensures
            final(self).wf(),
            final(self).setup() == old(self).setup(),
            final(self).contents() == old(self).contents(),
            final(self).position() == old(self).position(),
            Self::flushed(*old(self), b, *final(self)),
    {
        let ghost m = self.encoder@;
        let ghost window = self.settings.window;
        let mut out: Vec<EncoderOutput> = Vec::new();
        if self.encoder.window_size() == 0 {
            let packets = self.loss.filter(out);
            return Batch { packets, dropped: 0, pause: false };
        }
        let mut round: usize = 0;
        proof {
            self.encoder.lemma_wf();
        }
        assert(encoder::outputs(out@) =~= coded_run(m, 0));
        while round < 2
            invariant
                round <= 2,
                m.wf(),
                m.window.len() > 0,
                window == self.settings.window,
                self.wf(),
                self.settings == old(self).settings,
                self.data == old(self).data,
                self.next == old(self).next,
                self.loss == old(self).loss,
                out@.len() == round * window,
                self.encoder@ == m.after_coded_n(out@.len()),
                encoder::outputs(out@) == coded_run(m, out@.len()),
            decreases 2 - round,
        {
            let mut k: usize = 0;
            while k < self.settings.window
                invariant
                    k <= window,
                    m.wf(),
                    m.window.len() > 0,
                    window == self.settings.window,
                    self.wf(),
                    self.settings == old(self).settings,
                    self.data == old(self).data,
                    self.next == old(self).next,
                    self.loss == old(self).loss,
                    out@.len() == round * window + k,
                    self.encoder@ == m.after_coded_n(out@.len()),
                    encoder::outputs(out@) == coded_run(m, out@.len()),
                decreases window - k,
            {
                let ghost n = out@.len();
                let ghost before = out@;
                let ghost cc = self.encoder.control();
                proof {
                    laws::lemma_after_coded_n(m, n);
                    laws::lemma_after_coded_n(m, n + 1);
                }
                match self.encoder.generate_coded() {
                    Ok(Some(coded)) => {
                        proof {
                            lemma_no_control(
                                m.after_coded_n(n),
                                m.ids(),
                                cc,
                                coded@,
                                self.encoder.control(),
                            );
                        }
                        out.push(coded);
                        assert(encoder::outputs(out@) =~= encoder::outputs(before).push(coded@));
                        assert(coded_run(m, n + 1) =~= coded_run(m, n).push(coded@));
                    },
                    _ => {
                        assert(false);
                    },
                }
                k += 1;
            }
            assert((round + 1) * window == round * window + window) by (nonlinear_arith);
            round += 1;
        }
        let n: usize = out.len();
        let packets = self.loss.filter(out);
        let dropped: usize = n - packets.len();
        Batch { packets, dropped, pause: false }
    }

    /// The encoder.
    pub fn encoder(&self) -> (r: &DefaultEncoder)
        ensures
            *r == self.inner(),
    {
        &self.encoder
    }
}

/// Without congestion control a coded packet carries no CCI bytes.
pub proof fn lemma_no_control(
    m: EncoderModel,
    cover: Seq<u32>,
    cc: NoCongestionControl,
    out: OutputModel,
    after: NoCongestionControl,
)
    requires
        model::coded_output(m, cover, cc, out, after),
    ensures
        out == OutputModel::Coded(m.coded_packet(cover, Seq::empty())),
{
    let cci = choose|cci: Seq<u8>|
        {
            &&& #[trigger] model::sends(cc, cci, m.coded_packet(cover, cci), after)
            &&& out == OutputModel::Coded(m.coded_packet(cover, cci))
        };
    assert(cci =~= Seq::empty());
}

} // verus!
