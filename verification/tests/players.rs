use octave::players::PlayAction;
use octave::players::PlaybackCursor;
use octave::players::SignalPlayer;

fn stereo() -> SignalPlayer<f32> {
    let left: Vec<f32> = (0..10).map(|k| k as f32).collect();
    let right: Vec<f32> = (0..10).map(|k| -(k as f32)).collect();
    SignalPlayer::new(vec![left, right], 48000, 2)
}

fn cursor(pos: usize) -> PlaybackCursor {
    PlaybackCursor { finished: false, paused: false, pos, start_pos: 44, end_pos: 1044 }
}

#[test]
fn new_signal_player_is_at_the_start() {
    let player = stereo();
    assert!(!player.finished());
    assert_eq!(player.sample_rate(), 48000);
}

#[test]
fn chunk_interleaves_the_channels() {
    let mut player = stereo();
    let mut chunk = [9.0f32; 6];
    player.next_chunk(&mut chunk);
    assert_eq!(chunk, [0.0, -0.0, 1.0, -1.0, 2.0, -2.0]);
    assert!(!player.finished());
}

#[test]
fn chunks_follow_one_another() {
    let mut player = stereo();
    let mut chunk = [9.0f32; 4];
    player.next_chunk(&mut chunk);
    player.next_chunk(&mut chunk);
    assert_eq!(chunk, [2.0, -2.0, 3.0, -3.0]);
    player.next_chunk(&mut chunk);
    assert_eq!(chunk, [4.0, -4.0, 5.0, -5.0]);
}

#[test]
fn chunk_leaves_an_incomplete_frame_untouched() {
    let mut player = stereo();
    let mut chunk = [9.0f32; 5];
    player.next_chunk(&mut chunk);
    assert_eq!(chunk, [0.0, -0.0, 1.0, -1.0, 9.0]);
}

#[test]
fn chunk_that_reaches_the_end_finishes_the_player() {
    let mut player = stereo();
    let mut chunk = [9.0f32; 20];
    player.next_chunk(&mut chunk);
    assert!(player.finished());
    assert_eq!(chunk, [9.0; 20]);
}

#[test]
fn last_sample_is_never_played() {
    let mut player = stereo();
    let mut chunk = [9.0f32; 18];
    player.next_chunk(&mut chunk);
    assert!(!player.finished());
    assert_eq!(chunk[16..], [8.0, -8.0]);
    let mut last = [9.0f32; 2];
    player.next_chunk(&mut last);
    assert!(player.finished());
    assert_eq!(last, [9.0, 9.0]);
}

#[test]
fn empty_chunk_changes_nothing() {
    let mut player = stereo();
    let mut none: [f32; 0] = [];
    player.next_chunk(&mut none);
    assert!(!player.finished());
    let mut chunk = [9.0f32; 2];
    player.next_chunk(&mut chunk);
    assert_eq!(chunk, [0.0, -0.0]);
}

#[test]
fn player_uses_only_the_channels_it_plays() {
    let signal = vec![vec![1u8, 2, 3], vec![4, 5, 6], vec![7, 8]];
    let mut player = SignalPlayer::new(signal, 8000, 2);
    let mut chunk = [0u8; 4];
    player.next_chunk(&mut chunk);
    assert_eq!(chunk, [1, 4, 2, 5]);
}

#[test]
fn new_cursor_covers_the_audio_data() {
    let c = PlaybackCursor::new(44, 1000);
    assert_eq!(
        c,
        PlaybackCursor { finished: false, paused: false, pos: 0, start_pos: 44, end_pos: 1044 }
    );
}

#[test]
fn paused_cursor_idles() {
    let mut c = cursor(100);
    c.paused = true;
    assert_eq!(c.next_chunk(16, 2), PlayAction::Idle);
    assert_eq!(c.pos, 100);
    c.finished = true;
    assert_eq!(c.next_chunk(16, 2), PlayAction::Idle);
    assert_eq!(c.pos, 100);
    assert!(c.finished && c.paused);
}

#[test]
fn cursor_reads_and_advances() {
    let mut c = cursor(100);
    assert_eq!(c.next_chunk(16, 2), PlayAction::Read { bytes: 32 });
    assert_eq!(c.pos, 132);
    assert_eq!(c.next_chunk(10, 3), PlayAction::Read { bytes: 30 });
    assert_eq!(c.pos, 162);
    assert!(!c.finished && !c.paused);
}

#[test]
fn cursor_finishes_at_the_end_of_the_data() {
    let mut c = cursor(1000);
    assert_eq!(c.next_chunk(21, 2), PlayAction::Read { bytes: 42 });
    assert_eq!(c.pos, 1042);
    assert_eq!(c.next_chunk(1, 2), PlayAction::Finish);
    assert!(c.finished);
    assert_eq!(c.pos, 1042);
}

#[test]
fn cursor_finishes_on_a_chunk_that_ends_on_the_last_byte() {
    let mut c = cursor(1000);
    assert_eq!(c.next_chunk(22, 2), PlayAction::Finish);
    assert!(c.finished);
    assert_eq!(c.pos, 1000);
}

#[test]
fn cursor_finishes_on_a_chunk_too_large_to_count() {
    let mut c = cursor(0);
    assert_eq!(c.next_chunk(usize::MAX, 2), PlayAction::Finish);
    assert!(c.finished);
    let mut c = cursor(100);
    assert_eq!(c.next_chunk(usize::MAX - 50, 1), PlayAction::Finish);
}

#[test]
fn finished_cursor_rewinds_and_pauses() {
    let mut c = cursor(900);
    c.finished = true;
    assert_eq!(c.next_chunk(16, 2), PlayAction::Rewind);
    assert_eq!(c.pos, 44);
    assert!(c.paused);
    assert!(c.finished);
}

#[test]
fn finished_cursor_at_the_start_idles() {
    let mut c = cursor(44);
    c.finished = true;
    assert_eq!(c.next_chunk(16, 2), PlayAction::Idle);
    assert_eq!(c.pos, 44);
    assert!(!c.paused);
}

#[test]
fn progress_snaps_to_the_start_of_a_block() {
    let mut c = cursor(0);
    assert_eq!(c.set_progress(503, 4), 500);
    assert_eq!(c.pos, 500);
    assert_eq!(c.set_progress(500, 4), 500);
    assert_eq!(c.set_progress(511, 6), 510);
}

#[test]
fn progress_stays_inside_the_audio_data() {
    let mut c = cursor(500);
    assert_eq!(c.set_progress(0, 4), 44);
    assert_eq!(c.set_progress(43, 1), 44);
    assert_eq!(c.set_progress(5000, 4), 1044);
    assert_eq!(c.set_progress(usize::MAX, 2), 1044);
    assert_eq!(c.pos, 1044);
}

#[test]
fn progress_keeps_the_flags() {
    let mut c = cursor(500);
    c.paused = true;
    c.finished = true;
    c.set_progress(100, 4);
    assert!(c.paused && c.finished);
    assert_eq!((c.start_pos, c.end_pos), (44, 1044));
}
