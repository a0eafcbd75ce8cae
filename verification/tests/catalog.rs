use ratatoskr_core::catalog::{Publication, RequestKey, StorePath};
use ratatoskr_core::records::{
    GameCultMediaStreamAdvertisementRecord, GameCultMediaStreamRequestRecord,
};
use ratatoskr_core::{
    publish_request, pull_catalog, start_request, stop_request, store_path_for, CatalogOptions,
};

fn advertisement(stream_id: &str) -> GameCultMediaStreamAdvertisementRecord {
    GameCultMediaStreamAdvertisementRecord {
        stream_id: stream_id.into(),
        producer_id: "raven".into(),
        label: "Raven desktop".into(),
        state: "available".into(),
        video_source_ids: vec!["display:0".into()],
        video_source_labels: vec!["Display 1".into()],
        audio_source_ids: vec!["wasapi-loopback:Realtek".into()],
        audio_source_labels: vec!["Realtek loopback".into()],
        video_codecs: vec!["h264".into()],
        audio_codecs: vec!["pcm-f32le-interleaved".into()],
        audio_sample_rate: 48_000,
        audio_channels: 2,
        default_video_bitrate_kbps: 12_000,
        default_latency_budget_ms: 250,
        media_packet_bytes: 848,
        media_connection_id: 0x6d75_0001,
        updated_at: "2026-09-10T00:00:00Z".into(),
    }
}

fn options() -> CatalogOptions {
    CatalogOptions {
        odin: "rudp://127.0.0.1:17871".into(),
        runtime_id: "starfire.obs".into(),
        state_dir: "state".into(),
    }
}

/// A stream needs a connection id to be dialled with.
fn validate_advertisement(record: &GameCultMediaStreamAdvertisementRecord) -> Result<(), String> {
    if record.media_connection_id == 0 {
        Err("media_connection_id is zero".to_string())
    } else {
        Ok(())
    }
}

/// A source needs a codec.
fn validate_request(record: &GameCultMediaStreamRequestRecord) -> Result<(), String> {
    if !record.video_source_id.is_empty() && record.video_codec.is_empty() {
        Err("video source without a codec".to_string())
    } else {
        Ok(())
    }
}

/// What the catalog holds, by request key.
struct Held(Vec<(RequestKey, GameCultMediaStreamRequestRecord)>);

impl Held {
    fn accept(&mut self, publication: Publication, request: &GameCultMediaStreamRequestRecord) {
        self.0.retain(|(key, _)| *key != publication.key);
        self.0.push((publication.key, request.clone()));
    }

    fn get(&self, key: &RequestKey) -> Option<&GameCultMediaStreamRequestRecord> {
        self.0.iter().find(|(held, _)| held == key).map(|(_, request)| request)
    }
}

#[test]
fn the_picker_sees_what_advertises_and_a_request_comes_back_answered() -> Result<(), String> {
    let mut broken = advertisement("broken");
    broken.media_connection_id = 0;
    let entries = vec![
        ("other.host.av".to_string(), advertisement("other.host.av")),
        ("muninn.raven.av.rudp".to_string(), advertisement("muninn.raven.av.rudp")),
        ("broken".to_string(), broken),
    ];
    let options = options();

    let pulled = pull_catalog(entries, validate_advertisement);
    assert_eq!(
        pulled.streams.iter().map(|s| s.stream_id.as_str()).collect::<Vec<_>>(),
        vec!["muninn.raven.av.rudp", "other.host.av"],
        "sorted, and the malformed one is kept out of the picker"
    );
    assert_eq!(pulled.rejected.len(), 1);
    assert_eq!(pulled.rejected[0].0, "broken");
    assert_eq!(pulled.streams[0].audio_channels, 2);

    // Ask for it, then read back what the catalog holds under the request key.
    let mut held = Held(Vec::new());
    let request = start_request(
        &pulled.streams[0],
        "starfire.obs",
        "192.168.178.146:5204",
        "display:0",
        "wasapi-loopback:Realtek",
        "h264",
        "pcm-f32le-interleaved",
        0,
        0,
        "2026-09-10T00:00:01Z",
    );
    assert_eq!(request.video_bitrate_kbps, 12_000, "zero means the producer's default");
    held.accept(publish_request(&options, &request, validate_request)?, &request);
    let answer = held
        .get(&options.request_key("muninn.raven.av.rudp"))
        .expect("the mesh holds the request");
    assert_eq!(*answer, request);
    assert_eq!(answer.state, "pending");

    // A newer request for the same stream from the same receiver replaces it.
    let stop = stop_request(&pulled.streams[0], "starfire.obs", "2026-09-10T00:00:02Z");
    held.accept(publish_request(&options, &stop, validate_request)?, &stop);
    let answer =
        held.get(&options.request_key("muninn.raven.av.rudp")).expect("still one document");
    assert_eq!(answer.action, "stop");
    assert_eq!(held.0.len(), 1);
    Ok(())
}

#[test]
fn a_request_that_names_a_source_without_a_codec_is_refused_before_it_leaves() {
    let options = options();
    let mut request = start_request(
        &advertisement("s"),
        "starfire.obs",
        "127.0.0.1:1",
        "display:0",
        "",
        "h264",
        "",
        0,
        0,
        "t",
    );
    request.video_codec.clear();
    let error = publish_request(&options, &request, validate_request).unwrap_err();
    assert!(error.contains("codec"), "{error}");
}

#[test]
fn a_start_request_names_everything_the_producer_needs() {
    let request = start_request(
        &advertisement("s"),
        "r",
        "10.0.0.2:5204",
        "display:0",
        "mic",
        "h264",
        "opus",
        9_000,
        80,
        "now",
    );
    assert_eq!(
        request,
        GameCultMediaStreamRequestRecord {
            request_id: "s:r:now".into(),
            stream_id: "s".into(),
            producer_id: "raven".into(),
            receiver_id: "r".into(),
            receiver_endpoint: "10.0.0.2:5204".into(),
            action: "start".into(),
            state: "pending".into(),
            video_source_id: "display:0".into(),
            audio_source_id: "mic".into(),
            video_codec: "h264".into(),
            audio_codec: "opus".into(),
            video_bitrate_kbps: 9_000,
            latency_budget_ms: 80,
            media_packet_bytes: 848,
            detail: "".into(),
            updated_at: "now".into(),
        }
    );
}

#[test]
fn no_source_means_no_codec_and_zero_means_the_default() {
    let request =
        start_request(&advertisement("s"), "r", "e", "", "", "h264", "opus", 0, 0, "now");
    assert_eq!(request.video_codec, "");
    assert_eq!(request.audio_codec, "");
    assert_eq!(request.video_bitrate_kbps, 12_000);
    assert_eq!(request.latency_budget_ms, 250);
}

#[test]
fn a_stop_request_asks_for_no_media() {
    let request = stop_request(&advertisement("s"), "r", "now");
    assert_eq!(
        request,
        GameCultMediaStreamRequestRecord {
            request_id: "s:r:now".into(),
            stream_id: "s".into(),
            producer_id: "raven".into(),
            receiver_id: "r".into(),
            receiver_endpoint: "".into(),
            action: "stop".into(),
            state: "pending".into(),
            video_source_id: "".into(),
            audio_source_id: "".into(),
            video_codec: "".into(),
            audio_codec: "".into(),
            video_bitrate_kbps: 0,
            latency_budget_ms: 0,
            media_packet_bytes: 0,
            detail: "".into(),
            updated_at: "now".into(),
        }
    );
}

#[test]
fn a_publication_says_who_publishes_and_what() -> Result<(), String> {
    let request = stop_request(&advertisement("s"), "r", "now");
    assert_eq!(
        publish_request(&options(), &request, validate_request)?,
        Publication {
            key: RequestKey { stream_id: "s".into(), receiver_id: "r".into() },
            runtime_id: "starfire.obs".into(),
            source_role: "media-stream-consumer".into(),
            tag: "gamecult.media-stream-request".into(),
        }
    );
    Ok(())
}

/// Advertisements of one stream keep the order they had.
#[test]
fn the_picker_is_sorted_and_stable() {
    let entry = |stream_id: &str, label: &str| {
        let mut record = advertisement(stream_id);
        record.label = label.to_string();
        (label.to_string(), record)
    };
    let mut broken = entry("a", "bad");
    broken.1.media_connection_id = 0;
    let pulled = pull_catalog(
        vec![entry("b", "1"), entry("ab", "2"), broken, entry("b", "3"), entry("a", "4"), entry("b", "5")],
        validate_advertisement,
    );
    assert_eq!(
        pulled.streams.iter().map(|s| s.label.as_str()).collect::<Vec<_>>(),
        vec!["4", "2", "1", "3", "5"]
    );
    assert_eq!(
        pulled.rejected,
        vec![("bad".to_string(), "media_connection_id is zero".to_string())]
    );
}

#[test]
fn the_working_store_is_per_consumer() {
    let path =
        StorePath { dir: "state".to_string(), file_name: "starfire.obs.catalog.cc".to_string() };
    assert_eq!(store_path_for("state", "starfire.obs"), path);
    assert_eq!(options().store_path(), path);
}
