use argos::audio::{
    count_descendants, discord_processes, find_discord_root_pid, image_name, is_discord_image,
    is_settled, select_discord_root, AudioPump, AudioStep, ClientStep, OpenStage, PlaybackQueue,
    ProcessEntry, FRAME_BYTES, PROCESS_LOOPBACK_PERIOD_HNS,
};

const SECOND: u64 = 1_000_000_000;

fn wide(text: &str) -> Vec<u16> {
    let mut units: Vec<u16> = text.encode_utf16().collect();
    units.push(0);
    units
}

#[test]
fn discord_root_single_process() {
    assert_eq!(select_discord_root(&[(100, 4)]), Some(100));
}

#[test]
fn discord_root_skips_child_processes() {
    // The renderer (101) is a child of the main process (100).
    let processes = [(100, 4), (101, 100), (102, 101)];
    assert_eq!(select_discord_root(&processes), Some(100));
}

#[test]
fn discord_root_empty_processes() {
    assert_eq!(select_discord_root(&[]), None);
}

#[test]
fn discord_root_prefers_largest_tree() {
    // Two Discord instances: tree A and the larger tree B.
    let processes = [
        (100, 4),
        (101, 100),
        (200, 4),
        (201, 200),
        (202, 201),
        (203, 202),
    ];
    assert_eq!(select_discord_root(&processes), Some(200));
}

#[test]
fn discord_root_no_parent_match_falls_back() {
    // Parent pids are not Discord processes: every pid is its own root.
    let processes = [(100, 4), (101, 5), (102, 6)];
    let root = select_discord_root(&processes).unwrap();
    assert!(processes.iter().any(|(pid, _)| *pid == root));
}

#[test]
fn order_of_the_processes_does_not_matter() {
    let mut processes = vec![(100, 4), (101, 100), (200, 4), (201, 200), (300, 4)];
    for _ in 0..processes.len() {
        processes.rotate_left(1);
        assert_eq!(select_discord_root(&processes), Some(200));
        let reversed: Vec<(u32, u32)> = processes.iter().rev().copied().collect();
        assert_eq!(select_discord_root(&reversed), Some(200));
    }
}

#[test]
fn descendants_are_counted_at_any_depth() {
    let processes = [(100, 4), (101, 100), (102, 101), (103, 100), (200, 4)];
    assert_eq!(count_descendants(100, &processes), 3);
    assert_eq!(count_descendants(101, &processes), 1);
    assert_eq!(count_descendants(200, &processes), 0);
    assert_eq!(count_descendants(4, &processes), 5);
}

#[test]
fn largest_id_wins_among_equal_trees() {
    assert_eq!(select_discord_root(&[(300, 4), (100, 4), (200, 5)]), Some(300));
    assert_eq!(select_discord_root(&[(100, 4), (300, 4)]), Some(300));
}

#[test]
fn processes_in_a_circle_are_not_settled() {
    assert!(is_settled(&[(100, 4), (101, 100)]));
    assert!(is_settled(&[]));
    assert!(!is_settled(&[(100, 4), (1, 2), (2, 1)]));
    assert!(is_settled(&[(1, 2), (2, 1)]));
    assert_eq!(select_discord_root(&[(1, 2), (2, 1)]), None);
}

#[test]
fn program_names_are_lower_case() {
    assert_eq!(image_name(&wide("Discord.EXE")), "discord.exe");
    assert_eq!(image_name(&[0x44, 0, 0x45]), "d");
    assert_eq!(image_name(&[0x44, 0x49]), "di");
    assert_eq!(image_name(&[0xd83d, 0xde00, 0x41]), "??a");
    assert_eq!(image_name(&[0xc4, 0x5a, 0x5b]), "Äz[");
    assert_eq!(image_name(&[]), "");
}

#[test]
fn discord_clients_are_known() {
    assert!(is_discord_image("discord.exe"));
    assert!(is_discord_image("discordptb.exe"));
    assert!(is_discord_image("discordcanary.exe"));
    assert!(!is_discord_image("Discord.exe"));
    assert!(!is_discord_image("discord"));
}

#[test]
fn discord_is_found_among_all_processes() {
    let entry = |pid, parent, name: &str| ProcessEntry { pid, parent, image: wide(name) };
    let entries = vec![
        entry(4, 0, "System"),
        entry(100, 4, "Discord.exe"),
        entry(50, 4, "explorer.exe"),
        entry(101, 100, "Discord.exe"),
    ];
    assert_eq!(discord_processes(&entries), vec![(100, 4), (101, 100)]);
    assert_eq!(find_discord_root_pid(&entries), Some(100));
    assert_eq!(find_discord_root_pid(&vec![entry(4, 0, "System")]), None);
}

#[test]
fn messages_tell_what_is_left_out() {
    let mut pump = AudioPump::new();
    let (step, messages) = pump.scanned(Ok(None));
    assert!(matches!(step, AudioStep::Open(None)));
    assert!(messages.is_empty());
    let (step, messages) = pump.scanned(Ok(Some(100)));
    assert!(matches!(step, AudioStep::Open(Some(100))));
    assert_eq!(messages, vec!["Discord audio excluded from the stream (pid 100)"]);
    let (_, messages) = pump.scanned(Ok(Some(100)));
    assert!(messages.is_empty());
    let (step, messages) = pump.scanned(Err("denied".to_string()));
    assert!(matches!(step, AudioStep::Open(None)));
    assert_eq!(
        messages,
        vec![
            "Discord detection failed: denied",
            "Discord not running: sharing full system audio"
        ]
    );
}

#[test]
fn ready_is_told_once() {
    let mut pump = AudioPump::new();
    assert!(pump.opened(SECOND));
    assert!(!pump.opened(2 * SECOND));
}

#[test]
fn processes_are_looked_through_every_two_seconds() {
    let mut pump = AudioPump::new();
    pump.opened(10 * SECOND);
    assert!(matches!(pump.turn(false, 12 * SECOND - 1), AudioStep::Read));
    assert!(matches!(pump.turn(false, 12 * SECOND), AudioStep::Rescan));
    assert!(matches!(pump.turn(false, 12 * SECOND + 1), AudioStep::Read));
    assert!(matches!(pump.turn(true, 20 * SECOND), AudioStep::Close { rebuild: false }));
    assert!(matches!(pump.waited(true, false, 14 * SECOND), AudioStep::Rescan));
    assert!(matches!(pump.waited(true, true, 14 * SECOND), AudioStep::Close { rebuild: false }));
    assert!(matches!(pump.waited(false, false, 15 * SECOND), AudioStep::Close { rebuild: true }));
}

#[test]
fn another_target_calls_for_another_client() {
    let mut pump = AudioPump::new();
    pump.scanned(Ok(Some(7)));
    assert!(matches!(pump.rescanned(Ok(Some(7))), (AudioStep::Read, None)));
    assert!(matches!(pump.rescanned(Ok(None)), (AudioStep::Close { rebuild: true }, None)));
    assert!(matches!(pump.rescanned(Ok(Some(8))), (AudioStep::Close { rebuild: true }, None)));
    match pump.rescanned(Err("denied".to_string())) {
        (AudioStep::Read, Some(message)) => assert_eq!(message, "Discord detection failed: denied"),
        _ => panic!("unexpected step"),
    }
}

#[test]
fn rounds_begin_and_end() {
    assert!(matches!(AudioPump::begin(true), AudioStep::Finish(Ok(()))));
    assert!(matches!(AudioPump::begin(false), AudioStep::Scan));
    assert!(matches!(AudioPump::closed(true, false), AudioStep::Scan));
    assert!(matches!(AudioPump::closed(true, true), AudioStep::Finish(Ok(()))));
    assert!(matches!(AudioPump::closed(false, false), AudioStep::Finish(Ok(()))));
}

#[test]
fn failures_are_put_in_words() {
    match AudioPump::open_failed(OpenStage::Build, "no device".to_string()) {
        (AudioStep::Finish(Err(reason)), Some(message)) => {
            assert_eq!(reason, "audio capture failed");
            assert_eq!(message, "no device");
        }
        _ => panic!("unexpected end"),
    }
    match AudioPump::open_failed(OpenStage::Init, "format".to_string()) {
        (AudioStep::Finish(Err(reason)), None) => {
            assert_eq!(reason, "loopback init failed: format");
        }
        _ => panic!("unexpected end"),
    }
    match AudioPump::open_failed(OpenStage::Start, "busy".to_string()) {
        (AudioStep::Finish(Err(reason)), None) => assert_eq!(reason, "busy"),
        _ => panic!("unexpected end"),
    }
    let (step, message) = AudioPump::read_failed("gone");
    assert!(matches!(step, AudioStep::Close { rebuild: true }));
    assert_eq!(message, "audio capture read failed: gone");
}

#[test]
fn bytes_make_frames_of_samples() {
    let mut pump = AudioPump::new();
    let data: Vec<u8> = (0..FRAME_BYTES * 2 + 6).map(|i| (i % 251) as u8).collect();
    assert!(pump.received(&data[..FRAME_BYTES - 1]).is_empty());
    let frames = pump.received(&data[FRAME_BYTES - 1..]);
    assert_eq!(frames.len(), 2);
    for (k, frame) in frames.iter().enumerate() {
        assert_eq!(frame.len(), 1920);
        for (i, word) in frame.iter().enumerate() {
            let at = k * FRAME_BYTES + i * 4;
            assert_eq!(word.to_le_bytes()[..], data[at..at + 4]);
        }
    }
    let more = pump.received(&vec![0; FRAME_BYTES - 6]);
    assert_eq!(more.len(), 1);
    assert_eq!(more[0][0].to_le_bytes()[..], data[FRAME_BYTES * 2..FRAME_BYTES * 2 + 4]);
}

#[test]
fn playback_is_padded_with_silence() {
    let mut queue = PlaybackQueue::new();
    assert!(queue.wants(1));
    queue.push(&[1.0f32.to_bits(), (-0.5f32).to_bits(), 7]);
    assert!(!queue.wants(1));
    assert!(queue.wants(2));
    queue.pad(2);
    assert!(!queue.wants(2));
    let bytes = queue.take(2);
    assert_eq!(bytes[..4], 1.0f32.to_le_bytes());
    assert_eq!(bytes[4..8], (-0.5f32).to_le_bytes());
    assert_eq!(bytes[8..12], [7, 0, 0, 0]);
    assert_eq!(bytes[12..], [0, 0, 0, 0]);
    assert!(queue.wants(1));
}

#[test]
fn client_for_all_sound_stands_in() {
    assert_eq!(AudioPump::client(Some(7)), ClientStep::Exclude(7));
    assert_eq!(AudioPump::client(None), ClientStep::All);
    let taken = ClientStep::Take(PROCESS_LOOPBACK_PERIOD_HNS);
    assert_eq!(AudioPump::exclusion(Ok(())), (taken, None));
    let message = "Discord exclusion unavailable (old Windows); sharing full system audio";
    assert_eq!(
        AudioPump::exclusion(Err("old Windows".to_string())),
        (ClientStep::All, Some(message.to_string()))
    );
}

#[test]
fn trees_of_all_roots_make_up_all_processes() {
    let processes =
        [(100, 4), (101, 100), (200, 4), (201, 200), (202, 201), (203, 202), (300, 9)];
    assert!(is_settled(&processes));
    let sizes: usize =
        [100, 200, 300].iter().map(|root| 1 + count_descendants(*root, &processes)).sum();
    assert_eq!(sizes, processes.len());
}

#[test]
fn all_sound_is_played_in_order() {
    let frames = [vec![1u32, 2, 3], vec![4, 5], vec![6, 7, 8, 9, 10]];
    let mut waiting = frames.iter();
    let mut queue = PlaybackQueue::new();
    let mut played: Vec<u8> = Vec::new();
    for available in [1, 2, 3, 0, 1] {
        while queue.wants(available) {
            queue.offer(waiting.next().map(Vec::as_slice), available);
        }
        let bytes = queue.take(available);
        assert_eq!(bytes.len(), available * 8);
        played.extend(bytes);
    }
    let words: Vec<u32> = played
        .chunks(4)
        .map(|bytes| u32::from_le_bytes([bytes[0], bytes[1], bytes[2], bytes[3]]))
        .collect();
    assert_eq!(words, vec![1, 2, 3, 4, 5, 6, 7, 8, 9, 10, 0, 0, 0, 0]);
}

#[test]
fn played_bytes_leave_the_queue() {
    let mut queue = PlaybackQueue::new();
    queue.push(&[0x04030201, 0x08070605, 0x0c0b0a09, 0x100f0e0d]);
    assert_eq!(queue.take(1), vec![1, 2, 3, 4, 5, 6, 7, 8]);
    queue.pad(1);
    assert_eq!(queue.take(1), vec![9, 10, 11, 12, 13, 14, 15, 16]);
}
