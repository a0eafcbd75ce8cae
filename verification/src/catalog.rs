//! What streams exist and asking for one.
//!
//! Producers advertise their streams in a catalog; a consumer pulls those to
//! build a picker and publishes a request naming the stream, the sources, the
//! codecs and the endpoint the producer should dial. The producer answers on
//! the same request key. None of this touches the media channel: the picker
//! shows whatever advertises.

use crate::records::{
    GameCultMediaStreamAdvertisementRecord, GameCultMediaStreamRequestRecord, Request,
};
use crate::text;
use crate::text::{compare_text, Comparison};
use vstd::prelude::*;

verus! {

#[derive(Clone, Debug, PartialEq, Eq)]
pub struct CatalogOptions {
    /// The catalog's endpoint, as `rudp://host:port` or `host:port`.
    pub odin: String,
    /// How this consumer names itself to the catalog and in request records.
    pub runtime_id: String,
    /// Where the working store lives. One file per consumer runtime.
    pub state_dir: String,
}

/// Where a working store lies: a file in a directory. How the two are joined is
/// the platform's business.
#[derive(Clone, Debug, PartialEq, Eq)]
pub struct StorePath {
    pub dir: String,
    pub file_name: String,
}

/// The name under which the catalog holds a request: the stream it is for and
/// the receiver that asks. How it is spelled is the media contract's business.
#[derive(Clone, Debug, PartialEq, Eq)]
pub struct RequestKey {
    pub stream_id: String,
    pub receiver_id: String,
}

/// What a [`RequestKey`] says.
#[verifier::ext_equal]
pub struct RequestName {
    pub stream_id: Seq<char>,
    pub receiver_id: Seq<char>,
}

impl View for RequestKey {
    type V = RequestName;

    open spec fn view(&self) -> RequestName {
        RequestName { stream_id: self.stream_id@, receiver_id: self.receiver_id@ }
    }
}

/// A request on its way to the catalog.
#[derive(Clone, Debug, PartialEq, Eq)]
pub struct Publication {
    /// Supersedes what the catalog holds under this key.
    pub key: RequestKey,
    /// Who publishes.
    pub runtime_id: String,
    pub source_role: String,
    pub tag: String,
}

/// The name under which the catalog holds a request.
pub open spec fn name_of(request: Request) -> RequestName {
    RequestName { stream_id: request.stream_id, receiver_id: request.receiver_id }
}

/// The working store is per consumer; nothing else should read it.
pub fn store_path_for(state_dir: &str, runtime_id: &str) -> (path: StorePath)
    ensures
        path.dir@ == state_dir@,
        path.file_name@ == runtime_id@ + ".catalog.cc"@,
{
    let mut file_name = runtime_id.to_owned();
    file_name.append(".catalog.cc");
    StorePath { dir: state_dir.to_owned(), file_name }
}

impl CatalogOptions {
    /// Where this consumer's working store lies.
    pub fn store_path(&self) -> (path: StorePath)
        ensures
            path.dir@ == self.state_dir@,
            path.file_name@ == self.runtime_id@ + ".catalog.cc"@,
    {
        store_path_for(self.state_dir.as_str(), self.runtime_id.as_str())
    }

    /// The key of this consumer's request for a stream, and of the producer's
    /// answer to it.
    pub fn request_key(&self, stream_id: &str) -> (key: RequestKey)
        ensures
            key@ == (RequestName { stream_id: stream_id@, receiver_id: self.runtime_id@ }),
            key.stream_id@ == stream_id@,
            key.receiver_id@ == self.runtime_id@,
    {
        RequestKey { stream_id: stream_id.to_owned(), receiver_id: self.runtime_id.clone() }
    }
}

/// Every stream currently advertised, validated. A malformed advertisement is
/// skipped and returned separately rather than hiding the good ones behind an
/// error.
pub struct CatalogPull {
    pub streams: Vec<GameCultMediaStreamAdvertisementRecord>,
    pub rejected: Vec<(String, String)>,
}

/// The advertisements of one stream, in order.
pub open spec fn of_stream(
    streams: Seq<GameCultMediaStreamAdvertisementRecord>,
    stream_id: Seq<char>,
) -> Seq<GameCultMediaStreamAdvertisementRecord>
    decreases streams.len(),
{
    if streams.len() == 0 {
        Seq::empty()
    } else if streams.last().stream_id@ == stream_id {
        of_stream(streams.drop_last(), stream_id).push(streams.last())
    } else {
        of_stream(streams.drop_last(), stream_id)
    }
}

/// No advertisement comes before one of an earlier stream.
pub open spec fn in_stream_order(streams: Seq<GameCultMediaStreamAdvertisementRecord>) -> bool {
    forall|i: int, j: int|
        0 <= i < j < streams.len() ==> !text::text_before(
            (#[trigger] streams[j]).stream_id@,
            (#[trigger] streams[i]).stream_id@,
        )
}

/// The same advertisements sorted by stream, those of one stream in the order
/// they had.
pub open spec fn sorts(
    sorted: Seq<GameCultMediaStreamAdvertisementRecord>,
    streams: Seq<GameCultMediaStreamAdvertisementRecord>,
) -> bool {
    &&& sorted.len() == streams.len()
    &&& in_stream_order(sorted)
    &&& forall|stream_id: Seq<char>| #[trigger]
        of_stream(sorted, stream_id) == of_stream(streams, stream_id)
}

/// What is kept of the entries: those the media contract allows, in order.
pub open spec fn accepted(
    entries: Seq<(String, GameCultMediaStreamAdvertisementRecord)>,
    verdicts: Seq<Result<(), String>>,
) -> Seq<GameCultMediaStreamAdvertisementRecord>
    decreases entries.len(),
{
    if entries.len() == 0 {
        Seq::empty()
    } else {
        let before = accepted(entries.drop_last(), verdicts.drop_last());
        match verdicts.last() {
            Ok(_) => before.push(entries.last().1),
            Err(_) => before,
        }
    }
}

/// What is turned away: the key of each entry the media contract does not
/// allow, with the reason, in order.
pub open spec fn turned_away(
    entries: Seq<(String, GameCultMediaStreamAdvertisementRecord)>,
    verdicts: Seq<Result<(), String>>,
) -> Seq<(String, String)>
    decreases entries.len(),
{
    if entries.len() == 0 {
        Seq::empty()
    } else {
        let before = turned_away(entries.drop_last(), verdicts.drop_last());
        match verdicts.last() {
            Ok(_) => before,
            Err(reason) => before.push((entries.last().0, reason)),
        }
    }
}

/// The verdicts are what `validate` said of the entries.
pub open spec fn judges<V: Fn(&GameCultMediaStreamAdvertisementRecord) -> Result<(), String>>(
    validate: V,
    entries: Seq<(String, GameCultMediaStreamAdvertisementRecord)>,
    verdicts: Seq<Result<(), String>>,
) -> bool {
    &&& verdicts.len() == entries.len()
    &&& forall|i: int|
        0 <= i < entries.len() ==> call_ensures(
            validate,
            (&(#[trigger] entries[i]).1,),
            verdicts[i],
        )
}

/// Makes a picker of what the catalog holds: the advertisements the media
/// contract allows, sorted by stream, and apart from them the ones it does not.
///
/// `validate` is the media contract's.
pub fn pull_catalog<V: Fn(&GameCultMediaStreamAdvertisementRecord) -> Result<(), String>>(
    entries: Vec<(String, GameCultMediaStreamAdvertisementRecord)>,
    validate: V,
) -> (pull: CatalogPull)
    requires
        forall|record: GameCultMediaStreamAdvertisementRecord| #[trigger]
            call_requires(validate, (&record,)),
    ensures
        exists|verdicts: Seq<Result<(), String>>|
            {
                &&& #[trigger] judges(validate, entries@, verdicts)
                &&& sorts(pull.streams@, accepted(entries@, verdicts))
                &&& pull.rejected@ == turned_away(entries@, verdicts)
            },
{
    let ghost all = entries@;
    let ghost mut verdicts: Seq<Result<(), String>> = Seq::empty();
    let mut streams: Vec<GameCultMediaStreamAdvertisementRecord> = Vec::new();
    let mut rejected: Vec<(String, String)> = Vec::new();
    assert(all.take(0) =~= Seq::empty());
    for entry in it: entries.into_iter()
        invariant
            it.seq() == all,
            judges(validate, all.take(it.index()), verdicts),
            sorts(streams@, accepted(all.take(it.index()), verdicts)),
            rejected@ == turned_away(all.take(it.index()), verdicts),
            forall|record: GameCultMediaStreamAdvertisementRecord| #[trigger]
                call_requires(validate, (&record,)),
    {
        let ghost n = it.index();
        let ghost known = verdicts;
        let ghost here = all.take(n + 1);
        let ghost held = entry;
        let (key, record) = entry;
        let verdict = validate(&record);
        proof {
            verdicts = verdicts.push(verdict);
            assert(here.drop_last() =~= all.take(n));
            assert(here.last() == held);
            assert(verdicts.drop_last() =~= known);
            assert(judges(validate, here, verdicts)) by {
                assert forall|i: int| 0 <= i < here.len() implies call_ensures(
                    validate,
                    (&(#[trigger] here[i]).1,),
                    verdicts[i],
                ) by {
                    if i < n {
                        assert(all.take(n)[i] == here[i]);
                    }
                }
            }
        }
        match verdict {
            Ok(_) => {
                insert_sorted(&mut streams, record, Ghost(accepted(all.take(n), known)));
            },
            Err(reason) => {
                rejected.push((key, reason));
            },
        }
    }
    assert(all.take(all.len() as int) =~= all);
    CatalogPull { streams, rejected }
}

/// Puts an advertisement behind those of its own and earlier streams.
fn insert_sorted(
    streams: &mut Vec<GameCultMediaStreamAdvertisementRecord>,
    record: GameCultMediaStreamAdvertisementRecord,
    Ghost(so_far): Ghost<Seq<GameCultMediaStreamAdvertisementRecord>>,
)
    requires
        sorts(old(streams)@, so_far),
    ensures
        sorts(final(streams)@, so_far.push(record)),
{
    let ghost before = streams@;
    let mut place: usize = streams.len();
    while place > 0 && is_after(&streams[place - 1], &record)
        invariant
            streams@ == before,
            place <= before.len(),
            forall|i: int|
                place <= i < before.len() ==> text::text_before(
                    record.stream_id@,
                    (#[trigger] before[i]).stream_id@,
                ),
        decreases place,
    {
        place = place - 1;
    }
    proof {
        lemma_inserted_in_order(before, place as int, record);
        assert forall|stream_id: Seq<char>| #[trigger]
            of_stream(before.insert(place as int, record), stream_id) == of_stream(
                so_far.push(record),
                stream_id,
            ) by {
            lemma_inserted_last_of_its_stream(before, place as int, record, stream_id);
            assert(so_far.push(record).drop_last() =~= so_far);
            assert(of_stream(before, stream_id) == of_stream(so_far, stream_id));
        }
    }
    streams.insert(place, record);
}

fn is_after(
    one: &GameCultMediaStreamAdvertisementRecord,
    other: &GameCultMediaStreamAdvertisementRecord,
) -> (after: bool)
    ensures
        after == text::text_before(other.stream_id@, one.stream_id@),
{
    match compare_text(other.stream_id.as_str(), one.stream_id.as_str()) {
        Comparison::Before => true,
        _ => false,
    }
}

proof fn lemma_inserted_in_order(
    streams: Seq<GameCultMediaStreamAdvertisementRecord>,
    place: int,
    record: GameCultMediaStreamAdvertisementRecord,
)
    requires
        in_stream_order(streams),
        0 <= place <= streams.len(),
        place > 0 ==> !text::text_before(record.stream_id@, streams[place - 1].stream_id@),
        forall|i: int|
            place <= i < streams.len() ==> text::text_before(
                record.stream_id@,
                (#[trigger] streams[i]).stream_id@,
            ),
    ensures
        in_stream_order(streams.insert(place, record)),
{
    let all = streams.insert(place, record);
    assert forall|i: int, j: int| 0 <= i < j < all.len() implies !text::text_before(
        (#[trigger] all[j]).stream_id@,
        (#[trigger] all[i]).stream_id@,
    ) by {
        if j < place {
            assert(!text::text_before(streams[j].stream_id@, streams[i].stream_id@));
        } else if j == place {
            if i < place - 1 {
                let last = streams[place - 1].stream_id@;
                assert(!text::text_before(last, streams[i].stream_id@));
                if text::text_before(record.stream_id@, streams[i].stream_id@) {
                    text::lemma_text_total(last, record.stream_id@);
                    if text::text_before(last, record.stream_id@) {
                        text::lemma_text_transitive(
                            last,
                            record.stream_id@,
                            streams[i].stream_id@,
                        );
                    }
                }
            }
        } else {
            assert(all[j] == streams[j - 1]);
            if i < place {
                assert(!text::text_before(streams[j - 1].stream_id@, streams[i].stream_id@));
            } else if i == place {
                assert(text::text_before(record.stream_id@, streams[j - 1].stream_id@));
                text::lemma_text_asymmetric(record.stream_id@, streams[j - 1].stream_id@);
            } else {
                assert(!text::text_before(streams[j - 1].stream_id@, streams[i - 1].stream_id@));
            }
        }
    }
}

/// An advertisement in front of later streams only comes last of its own.
proof fn lemma_inserted_last_of_its_stream(
    streams: Seq<GameCultMediaStreamAdvertisementRecord>,
    place: int,
    record: GameCultMediaStreamAdvertisementRecord,
    stream_id: Seq<char>,
)
    requires
        0 <= place <= streams.len(),
        forall|i: int|
            place <= i < streams.len() ==> text::text_before(
                record.stream_id@,
                (#[trigger] streams[i]).stream_id@,
            ),
    ensures
        of_stream(streams.insert(place, record), stream_id) == if record.stream_id@ == stream_id {
            of_stream(streams, stream_id).push(record)
        } else {
            of_stream(streams, stream_id)
        },
    decreases streams.len() - place,
{
    let all = streams.insert(place, record);
    if place == streams.len() {
        assert(all.drop_last() =~= streams);
    } else {
        let last = streams.last();
        let fewer = streams.drop_last();
        assert(last == streams[streams.len() - 1]);
        assert(all.last() == last);
        assert(all.drop_last() =~= fewer.insert(place, record));
        assert forall|i: int| place <= i < fewer.len() implies text::text_before(
            record.stream_id@,
            (#[trigger] fewer[i]).stream_id@,
        ) by {
            assert(fewer[i] == streams[i]);
        }
        lemma_inserted_last_of_its_stream(fewer, place, record, stream_id);
        text::lemma_text_irreflexive(record.stream_id@);
    }
}

/// Readies a request for the catalog, under its stream and receiver key,
/// superseding any earlier request from the same receiver for the same stream.
/// One the media contract does not allow is refused before it leaves.
///
/// `validate` is the media contract's.
pub fn publish_request<V: Fn(&GameCultMediaStreamRequestRecord) -> Result<(), String>>(
    options: &CatalogOptions,
    request: &GameCultMediaStreamRequestRecord,
    validate: V,
) -> (result: Result<Publication, String>)
    requires
        call_requires(validate, (request,)),
    ensures
        exists|verdict: Result<(), String>|
            {
                &&& #[trigger] call_ensures(validate, (request,), verdict)
                &&& match verdict {
                    Ok(_) => {
                        &&& result is Ok
                        &&& result->Ok_0.key@ == name_of(request@)
                        &&& result->Ok_0.key.stream_id@ == request.stream_id@
                        &&& result->Ok_0.key.receiver_id@ == request.receiver_id@
                        &&& result->Ok_0.runtime_id@ == options.runtime_id@
                        &&& result->Ok_0.source_role@ == "media-stream-consumer"@
                        &&& result->Ok_0.tag@ == "gamecult.media-stream-request"@
                    },
                    Err(reason) => result == Err::<Publication, String>(reason),
                }
            },
{
    let verdict = validate(request);
    match verdict {
        Ok(_) => Ok(
            Publication {
                key: RequestKey {
                    stream_id: request.stream_id.clone(),
                    receiver_id: request.receiver_id.clone(),
                },
                runtime_id: options.runtime_id.clone(),
                source_role: "media-stream-consumer".to_owned(),
                tag: "gamecult.media-stream-request".to_owned(),
            },
        ),
        Err(reason) => Err(reason),
    }
}

/// What a request is called: its stream, its receiver and when it was made.
pub open spec fn request_id(
    stream_id: Seq<char>,
    receiver_id: Seq<char>,
    observed_at: Seq<char>,
) -> Seq<char> {
    stream_id + ":"@ + receiver_id + ":"@ + observed_at
}

fn spell_request_id(stream_id: &str, receiver_id: &str, observed_at: &str) -> (id: String)
    ensures
        id@ == request_id(stream_id@, receiver_id@, observed_at@),
{
    let mut id = stream_id.to_owned();
    id.append(":");
    id.append(receiver_id);
    id.append(":");
    id.append(observed_at);
    id
}

/// The codec of a source; none for no source.
pub open spec fn codec_for(source_id: Seq<char>, codec: Seq<char>) -> Seq<char> {
    if source_id.len() == 0 {
        Seq::empty()
    } else {
        codec
    }
}

fn pick_codec(source_id: &str, codec: &str) -> (picked: String)
    ensures
        picked@ == codec_for(source_id@, codec@),
{
    if is_blank(source_id) {
        blank()
    } else {
        codec.to_owned()
    }
}

fn is_blank(text: &str) -> (is: bool)
    ensures
        is == (text@.len() == 0),
{
    match compare_text(text, "") {
        Comparison::Same => {
            proof {
                reveal_strlit("");
            }
            true
        },
        _ => {
            proof {
                reveal_strlit("");
                if text@.len() == 0 {
                    assert(text@ =~= ""@);
                }
            }
            false
        },
    }
}

fn blank() -> (text: String)
    ensures
        text@ == Seq::<char>::empty(),
{
    proof {
        reveal_strlit("");
    }
    let text = "".to_owned();
    assert(text@ =~= Seq::<char>::empty());
    text
}

/// What is asked for, or the producer's default if that is zero.
pub open spec fn or_default(asked: u32, default: u32) -> u32 {
    if asked == 0 {
        default
    } else {
        asked
    }
}

/// What is asked of a stream.
#[verifier::ext_equal]
pub struct Wish {
    pub receiver_id: Seq<char>,
    pub receiver_endpoint: Seq<char>,
    pub video_source_id: Seq<char>,
    pub audio_source_id: Seq<char>,
    pub video_codec: Seq<char>,
    pub audio_codec: Seq<char>,
    pub video_bitrate_kbps: u32,
    pub latency_budget_ms: u32,
    pub observed_at: Seq<char>,
}

/// The request to start a stream.
pub open spec fn start(
    advertisement: GameCultMediaStreamAdvertisementRecord,
    wish: Wish,
) -> Request {
    Request {
        request_id: request_id(advertisement.stream_id@, wish.receiver_id, wish.observed_at),
        stream_id: advertisement.stream_id@,
        producer_id: advertisement.producer_id@,
        receiver_id: wish.receiver_id,
        receiver_endpoint: wish.receiver_endpoint,
        action: "start"@,
        state: "pending"@,
        video_source_id: wish.video_source_id,
        audio_source_id: wish.audio_source_id,
        video_codec: codec_for(wish.video_source_id, wish.video_codec),
        audio_codec: codec_for(wish.audio_source_id, wish.audio_codec),
        video_bitrate_kbps: or_default(
            wish.video_bitrate_kbps,
            advertisement.default_video_bitrate_kbps,
        ),
        latency_budget_ms: or_default(
            wish.latency_budget_ms,
            advertisement.default_latency_budget_ms,
        ),
        media_packet_bytes: advertisement.media_packet_bytes,
        detail: Seq::empty(),
        updated_at: wish.observed_at,
    }
}

/// The request to stop a stream. It asks for no media.
pub open spec fn stop(
    advertisement: GameCultMediaStreamAdvertisementRecord,
    receiver_id: Seq<char>,
    observed_at: Seq<char>,
) -> Request {
    Request {
        request_id: request_id(advertisement.stream_id@, receiver_id, observed_at),
        stream_id: advertisement.stream_id@,
        producer_id: advertisement.producer_id@,
        receiver_id,
        receiver_endpoint: Seq::empty(),
        action: "stop"@,
        state: "pending"@,
        video_source_id: Seq::empty(),
        audio_source_id: Seq::empty(),
        video_codec: Seq::empty(),
        audio_codec: Seq::empty(),
        video_bitrate_kbps: 0,
        latency_budget_ms: 0,
        media_packet_bytes: 0,
        detail: Seq::empty(),
        updated_at: observed_at,
    }
}

/// A start request as a renderer would issue it. `receiver_endpoint` is where
/// this consumer's media receiver listens; the producer dials it with the
/// advertised connection id.
#[allow(clippy::too_many_arguments)]
pub fn start_request(
    advertisement: &GameCultMediaStreamAdvertisementRecord,
    receiver_id: &str,
    receiver_endpoint: &str,
    video_source_id: &str,
    audio_source_id: &str,
    video_codec: &str,
    audio_codec: &str,
    video_bitrate_kbps: u32,
    latency_budget_ms: u32,
    observed_at: &str,
) -> (request: GameCultMediaStreamRequestRecord)
    ensures
        request@ == start(
            *advertisement,
            (Wish {
                receiver_id: receiver_id@,
                receiver_endpoint: receiver_endpoint@,
                video_source_id: video_source_id@,
                audio_source_id: audio_source_id@,
                video_codec: video_codec@,
                audio_codec: audio_codec@,
                video_bitrate_kbps,
                latency_budget_ms,
                observed_at: observed_at@,
            }),
        ),
        request.request_id@ == advertisement.stream_id@ + ":"@ + receiver_id@ + ":"@ + observed_at@,
        request.stream_id@ == advertisement.stream_id@,
        request.producer_id@ == advertisement.producer_id@,
        request.receiver_id@ == receiver_id@,
        request.receiver_endpoint@ == receiver_endpoint@,
        request.action@ == "start"@,
        request.state@ == "pending"@,
        request.video_source_id@ == video_source_id@,
        request.audio_source_id@ == audio_source_id@,
        video_source_id@.len() > 0 ==> request.video_codec@ == video_codec@,
        video_source_id@.len() == 0 ==> request.video_codec@.len() == 0,
        audio_source_id@.len() > 0 ==> request.audio_codec@ == audio_codec@,
        audio_source_id@.len() == 0 ==> request.audio_codec@.len() == 0,
        video_bitrate_kbps > 0 ==> request.video_bitrate_kbps == video_bitrate_kbps,
        video_bitrate_kbps == 0 ==> request.video_bitrate_kbps
            == advertisement.default_video_bitrate_kbps,
        latency_budget_ms > 0 ==> request.latency_budget_ms == latency_budget_ms,
        latency_budget_ms == 0 ==> request.latency_budget_ms
            == advertisement.default_latency_budget_ms,
        request.media_packet_bytes == advertisement.media_packet_bytes,
        request.detail@.len() == 0,
        request.updated_at@ == observed_at@,
{
    GameCultMediaStreamRequestRecord {
        request_id: spell_request_id(
            advertisement.stream_id.as_str(),
            receiver_id,
            observed_at,
        ),
        stream_id: advertisement.stream_id.clone(),
        producer_id: advertisement.producer_id.clone(),
        receiver_id: receiver_id.to_owned(),
        receiver_endpoint: receiver_endpoint.to_owned(),
        action: "start".to_owned(),
        state: "pending".to_owned(),
        video_source_id: video_source_id.to_owned(),
        audio_source_id: audio_source_id.to_owned(),
        video_codec: pick_codec(video_source_id, video_codec),
        audio_codec: pick_codec(audio_source_id, audio_codec),
        video_bitrate_kbps: if video_bitrate_kbps == 0 {
            advertisement.default_video_bitrate_kbps
        } else {
            video_bitrate_kbps
        },
        latency_budget_ms: if latency_budget_ms == 0 {
            advertisement.default_latency_budget_ms
        } else {
            latency_budget_ms
        },
        media_packet_bytes: advertisement.media_packet_bytes,
        detail: blank(),
        updated_at: observed_at.to_owned(),
    }
}

pub fn stop_request(
    advertisement: &GameCultMediaStreamAdvertisementRecord,
    receiver_id: &str,
    observed_at: &str,
) -> (request: GameCultMediaStreamRequestRecord)
    ensures
        request@ == stop(*advertisement, receiver_id@, observed_at@),
        request.request_id@ == advertisement.stream_id@ + ":"@ + receiver_id@ + ":"@ + observed_at@,
        request.stream_id@ == advertisement.stream_id@,
        request.producer_id@ == advertisement.producer_id@,
        request.receiver_id@ == receiver_id@,
        request.action@ == "stop"@,
        request.state@ == "pending"@,
        request.receiver_endpoint@.len() == 0,
        request.video_source_id@.len() == 0,
        request.audio_source_id@.len() == 0,
        request.video_codec@.len() == 0,
        request.audio_codec@.len() == 0,
        request.detail@.len() == 0,
        request.video_bitrate_kbps == 0,
        request.latency_budget_ms == 0,
        request.media_packet_bytes == 0,
        request.updated_at@ == observed_at@,
{
    GameCultMediaStreamRequestRecord {
        request_id: spell_request_id(
            advertisement.stream_id.as_str(),
            receiver_id,
            observed_at,
        ),
        stream_id: advertisement.stream_id.clone(),
        producer_id: advertisement.producer_id.clone(),
        receiver_id: receiver_id.to_owned(),
        receiver_endpoint: blank(),
        action: "stop".to_owned(),
        state: "pending".to_owned(),
        video_source_id: blank(),
        audio_source_id: blank(),
        video_codec: blank(),
        audio_codec: blank(),
        video_bitrate_kbps: 0,
        latency_budget_ms: 0,
        media_packet_bytes: 0,
        detail: blank(),
        updated_at: observed_at.to_owned(),
    }
}

/// A newer request for the same stream from the same receiver takes the place
/// of an earlier one: whatever they ask, both go by one name, which is also the
/// name the producer's answer is looked up under.
pub proof fn law_a_newer_request_supersedes_the_earlier(
    advertisement: GameCultMediaStreamAdvertisementRecord,
    wish: Wish,
    later: Seq<char>,
)
    ensures
        name_of(start(advertisement, wish)) == name_of(
            stop(advertisement, wish.receiver_id, later),
        ),
        name_of(start(advertisement, wish)) == (RequestName {
            stream_id: advertisement.stream_id@,
            receiver_id: wish.receiver_id,
        }),
{
}

/// Every entry of the catalog ends up in the picker or among the rejected, and
/// none in both: a malformed advertisement hides no good one.
pub proof fn law_every_advertisement_is_accounted_for(
    entries: Seq<(String, GameCultMediaStreamAdvertisementRecord)>,
    verdicts: Seq<Result<(), String>>,
    sorted: Seq<GameCultMediaStreamAdvertisementRecord>,
    i: int,
)
    requires
        verdicts.len() == entries.len(),
        sorts(sorted, accepted(entries, verdicts)),
        0 <= i < entries.len(),
    ensures
        sorted.len() + turned_away(entries, verdicts).len() == entries.len(),
        match verdicts[i] {
            Ok(_) => sorted.contains(entries[i].1),
            Err(reason) => turned_away(entries, verdicts).contains((entries[i].0, reason)),
        },
{
    lemma_kept_or_turned_away(entries, verdicts, i);
    if verdicts[i] is Ok {
        let record = entries[i].1;
        let kept = accepted(entries, verdicts);
        let k = choose|k: int| 0 <= k < kept.len() && kept[k] == record;
        lemma_in_its_stream(kept, k);
        let own = of_stream(sorted, record.stream_id@);
        assert(own == of_stream(kept, record.stream_id@));
        lemma_from_its_stream(sorted, record.stream_id@, record);
    }
}

proof fn lemma_kept_or_turned_away(
    entries: Seq<(String, GameCultMediaStreamAdvertisementRecord)>,
    verdicts: Seq<Result<(), String>>,
    i: int,
)
    requires
        verdicts.len() == entries.len(),
        0 <= i < entries.len(),
    ensures
        accepted(entries, verdicts).len() + turned_away(entries, verdicts).len() == entries.len(),
        match verdicts[i] {
            Ok(_) => accepted(entries, verdicts).contains(entries[i].1),
            Err(reason) => turned_away(entries, verdicts).contains((entries[i].0, reason)),
        },
    decreases entries.len(),
{
    let kept = accepted(entries.drop_last(), verdicts.drop_last());
    let away = turned_away(entries.drop_last(), verdicts.drop_last());
    if entries.len() > 1 {
        lemma_kept_or_turned_away(
            entries.drop_last(),
            verdicts.drop_last(),
            if i < entries.len() - 1 {
                i
            } else {
                0
            },
        );
    }
    if i == entries.len() - 1 {
        match verdicts[i] {
            Ok(_) => {
                assert(accepted(entries, verdicts)[kept.len() as int] == entries[i].1);
            },
            Err(reason) => {
                assert(turned_away(entries, verdicts)[away.len() as int] == (
                    entries[i].0,
                    reason,
                ));
            },
        }
    } else {
        match verdicts[i] {
            Ok(_) => {
                let k = choose|k: int| 0 <= k < kept.len() && kept[k] == entries[i].1;
                assert(accepted(entries, verdicts)[k] == entries[i].1);
            },
            Err(reason) => {
                let k = choose|k: int| 0 <= k < away.len() && away[k] == (entries[i].0, reason);
                assert(turned_away(entries, verdicts)[k] == (entries[i].0, reason));
            },
        }
    }
}

proof fn lemma_in_its_stream(streams: Seq<GameCultMediaStreamAdvertisementRecord>, k: int)
    requires
        0 <= k < streams.len(),
    ensures
        of_stream(streams, streams[k].stream_id@).contains(streams[k]),
    decreases streams.len(),
{
    let id = streams[k].stream_id@;
    let fewer = of_stream(streams.drop_last(), id);
    if k == streams.len() - 1 {
        assert(of_stream(streams, id)[fewer.len() as int] == streams[k]);
    } else {
        lemma_in_its_stream(streams.drop_last(), k);
        let n = choose|n: int| 0 <= n < fewer.len() && fewer[n] == streams[k];
        assert(of_stream(streams, id)[n] == streams[k]);
    }
}

proof fn lemma_from_its_stream(
    streams: Seq<GameCultMediaStreamAdvertisementRecord>,
    stream_id: Seq<char>,
    record: GameCultMediaStreamAdvertisementRecord,
)
    requires
        of_stream(streams, stream_id).contains(record),
    ensures
        streams.contains(record),
    decreases streams.len(),
{
    if streams.len() > 0 {
        let fewer = of_stream(streams.drop_last(), stream_id);
        let own = of_stream(streams, stream_id);
        let n = choose|n: int| 0 <= n < own.len() && own[n] == record;
        if streams.last() == record {
            assert(streams[streams.len() - 1] == record);
        } else {
            assert(fewer[n] == record);
            lemma_from_its_stream(streams.drop_last(), stream_id, record);
            let k = choose|k: int|
                0 <= k < streams.drop_last().len() && streams.drop_last()[k] == record;
            assert(streams[k] == record);
        }
    }
}

/// In a start request each codec goes by its own source alone: the video codec
/// is the one asked for exactly where a video source is, whatever the audio is,
/// and the audio codec likewise.
pub proof fn law_each_codec_goes_by_its_own_source(
    advertisement: GameCultMediaStreamAdvertisementRecord,
    wish: Wish,
    other: Wish,
)
    ensures
        wish.video_source_id.len() > 0 ==> start(advertisement, wish).video_codec
            == wish.video_codec,
        wish.video_source_id.len() == 0 ==> start(advertisement, wish).video_codec.len() == 0,
        wish.audio_source_id.len() > 0 ==> start(advertisement, wish).audio_codec
            == wish.audio_codec,
        wish.audio_source_id.len() == 0 ==> start(advertisement, wish).audio_codec.len() == 0,
        wish.video_source_id == other.video_source_id && wish.video_codec == other.video_codec
            ==> start(advertisement, wish).video_codec == start(advertisement, other).video_codec,
        wish.audio_source_id == other.audio_source_id && wish.audio_codec == other.audio_codec
            ==> start(advertisement, wish).audio_codec == start(advertisement, other).audio_codec,
{
}

/// A start request asks for what is wished, and where no rate or no latency is
/// wished for, for the producer's own.
pub proof fn law_a_start_request_says_what_is_wished(
    advertisement: GameCultMediaStreamAdvertisementRecord,
    wish: Wish,
)
    ensures
        ({
            let request = start(advertisement, wish);
            &&& request.stream_id == advertisement.stream_id@
            &&& request.producer_id == advertisement.producer_id@
            &&& request.receiver_id == wish.receiver_id
            &&& request.receiver_endpoint == wish.receiver_endpoint
            &&& request.action == "start"@
            &&& request.state == "pending"@
            &&& request.video_source_id == wish.video_source_id
            &&& request.audio_source_id == wish.audio_source_id
            &&& wish.video_bitrate_kbps > 0 ==> request.video_bitrate_kbps
                == wish.video_bitrate_kbps
            &&& wish.video_bitrate_kbps == 0 ==> request.video_bitrate_kbps
                == advertisement.default_video_bitrate_kbps
            &&& wish.latency_budget_ms > 0 ==> request.latency_budget_ms == wish.latency_budget_ms
            &&& wish.latency_budget_ms == 0 ==> request.latency_budget_ms
                == advertisement.default_latency_budget_ms
            &&& request.media_packet_bytes == advertisement.media_packet_bytes
            &&& request.detail.len() == 0
            &&& request.updated_at == wish.observed_at
        }),
{
}

/// A stop request says which stream is to stop for whom, and asks for no media.
pub proof fn law_a_stop_request_asks_for_no_media(
    advertisement: GameCultMediaStreamAdvertisementRecord,
    receiver_id: Seq<char>,
    observed_at: Seq<char>,
)
    ensures
        ({
            let request = stop(advertisement, receiver_id, observed_at);
            &&& request.stream_id == advertisement.stream_id@
            &&& request.producer_id == advertisement.producer_id@
            &&& request.receiver_id == receiver_id
            &&& request.action == "stop"@
            &&& request.state == "pending"@
            &&& request.receiver_endpoint.len() == 0
            &&& request.video_source_id.len() == 0 && request.audio_source_id.len() == 0
            &&& request.video_codec.len() == 0 && request.audio_codec.len() == 0
            &&& request.detail.len() == 0
            &&& request.video_bitrate_kbps == 0
            &&& request.latency_budget_ms == 0
            &&& request.media_packet_bytes == 0
            &&& request.updated_at == observed_at
        }),
{
}

/// Every request is called by its stream, its receiver and when it was made, in
/// this order, with a colon in between.
pub proof fn law_a_request_is_called_by_stream_receiver_and_time(
    advertisement: GameCultMediaStreamAdvertisementRecord,
    wish: Wish,
)
    ensures
        ({
            let stream = advertisement.stream_id@;
            let name = start(advertisement, wish).request_id;
            let n = stream.len() as int;
            let m = n + 1 + wish.receiver_id.len();
            &&& name == stop(advertisement, wish.receiver_id, wish.observed_at).request_id
            &&& name.len() == m + 1 + wish.observed_at.len()
            &&& name.subrange(0, n) == stream
            &&& name[n] == ':'
            &&& name.subrange(n + 1, m) == wish.receiver_id
            &&& name[m] == ':'
            &&& name.subrange(m + 1, name.len() as int) == wish.observed_at
        }),
{
    reveal_strlit(":");
    let stream = advertisement.stream_id@;
    let name = start(advertisement, wish).request_id;
    let n = stream.len() as int;
    let m = n + 1 + wish.receiver_id.len();
    assert(name.subrange(0, n) =~= stream);
    assert(name.subrange(n + 1, m) =~= wish.receiver_id);
    assert(name.subrange(m + 1, name.len() as int) =~= wish.observed_at);
}

/// A request goes by the stream it is for and the receiver that asks, and a key
/// says just that.
pub proof fn law_a_request_goes_by_stream_and_receiver(request: Request, key: RequestKey)
    ensures
        name_of(request).stream_id == request.stream_id,
        name_of(request).receiver_id == request.receiver_id,
        key@.stream_id == key.stream_id@,
        key@.receiver_id == key.receiver_id@,
{
}

/// The advertisements allowed are kept and the others turned away, each in the
/// order of the catalog and each by its own verdict.
pub proof fn law_each_advertisement_is_judged_for_itself(
    entries: Seq<(String, GameCultMediaStreamAdvertisementRecord)>,
    verdicts: Seq<Result<(), String>>,
)
    requires
        verdicts.len() == entries.len(),
    ensures
        ({
            let judged = entries.zip_with(verdicts);
            &&& accepted(entries, verdicts) == judged.filter(
                |entry: ((String, GameCultMediaStreamAdvertisementRecord), Result<(), String>)|
                    entry.1 is Ok,
            ).map_values(
                |entry: ((String, GameCultMediaStreamAdvertisementRecord), Result<(), String>)|
                    entry.0.1,
            )
            &&& turned_away(entries, verdicts) == judged.filter(
                |entry: ((String, GameCultMediaStreamAdvertisementRecord), Result<(), String>)|
                    entry.1 is Err,
            ).map_values(
                |entry: ((String, GameCultMediaStreamAdvertisementRecord), Result<(), String>)|
                    (entry.0.0, entry.1->Err_0),
            )
        }),
    decreases entries.len(),
{
    reveal(Seq::filter);
    let judged = entries.zip_with(verdicts);
    let good =
        |entry: ((String, GameCultMediaStreamAdvertisementRecord), Result<(), String>)|
        entry.1 is Ok;
    let bad =
        |entry: ((String, GameCultMediaStreamAdvertisementRecord), Result<(), String>)|
        entry.1 is Err;
    if entries.len() > 0 {
        law_each_advertisement_is_judged_for_itself(entries.drop_last(), verdicts.drop_last());
        assert(judged.drop_last() =~= entries.drop_last().zip_with(verdicts.drop_last()));
        assert(judged.last() == (entries.last(), verdicts.last()));
        assert(judged.filter(good).len() >= 0 && judged.filter(bad).len() >= 0);
    }
}

/// The picker is sorted by stream, and of each stream it lists the
/// advertisements in the order in which the catalog holds them.
pub proof fn law_the_picker_is_sorted_by_stream(
    sorted: Seq<GameCultMediaStreamAdvertisementRecord>,
    streams: Seq<GameCultMediaStreamAdvertisementRecord>,
    stream_id: Seq<char>,
    i: int,
    j: int,
)
    requires
        sorts(sorted, streams),
    ensures
        sorted.len() == streams.len(),
        0 <= i < j < sorted.len() ==> sorted[i].stream_id@ == sorted[j].stream_id@
            || text::text_before(sorted[i].stream_id@, sorted[j].stream_id@),
        sorted.filter(
            |stream: GameCultMediaStreamAdvertisementRecord| stream.stream_id@ == stream_id,
        ) == streams.filter(
            |stream: GameCultMediaStreamAdvertisementRecord| stream.stream_id@ == stream_id,
        ),
{
    if 0 <= i < j < sorted.len() {
        text::lemma_text_total(sorted[i].stream_id@, sorted[j].stream_id@);
        assert(!text::text_before(sorted[j].stream_id@, sorted[i].stream_id@));
    }
    lemma_of_stream_is_a_filter(sorted, stream_id);
    lemma_of_stream_is_a_filter(streams, stream_id);
    assert(of_stream(sorted, stream_id) == of_stream(streams, stream_id));
}

proof fn lemma_of_stream_is_a_filter(
    streams: Seq<GameCultMediaStreamAdvertisementRecord>,
    stream_id: Seq<char>,
)
    ensures
        of_stream(streams, stream_id) == streams.filter(
            |stream: GameCultMediaStreamAdvertisementRecord| stream.stream_id@ == stream_id,
        ),
    decreases streams.len(),
{
    reveal(Seq::filter);
    if streams.len() > 0 {
        lemma_of_stream_is_a_filter(streams.drop_last(), stream_id);
    }
}

/// The media contract is asked of every advertisement, of that advertisement,
/// and its answer is the verdict.
pub proof fn law_every_advertisement_is_judged<
    V: Fn(&GameCultMediaStreamAdvertisementRecord) -> Result<(), String>,
>(
    validate: V,
    entries: Seq<(String, GameCultMediaStreamAdvertisementRecord)>,
    verdicts: Seq<Result<(), String>>,
    i: int,
)
    requires
        judges(validate, entries, verdicts),
        0 <= i < entries.len(),
    ensures
        verdicts.len() == entries.len(),
        call_ensures(validate, (&entries[i].1,), verdicts[i]),
{
}

} // verus!
