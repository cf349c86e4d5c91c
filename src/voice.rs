//! The voice-frame buffer: encoded frames wait, by sequence number, until
//! enough have arrived to play one per tick without running dry.
use vstd::prelude::*;

verus! {

/// Frames wait until at least this many are buffered.
pub const VOICE_BUFFER_MIN: usize = 3;

/// The receiving side of a voice stream.
pub struct VoiceBuffer {
    next: u64,
    frames: Vec<(u64, Vec<u8>)>,
}

/// The model of a voice buffer: the next frame to play, and the frames held.
pub struct VoiceModel {
    pub next: u64,
    pub frames: Seq<(u64, Seq<u8>)>,
}

/// The models of held frames.
pub open spec fn frame_views(f: Seq<(u64, Vec<u8>)>) -> Seq<(u64, Seq<u8>)> {
    f.map_values(|x: (u64, Vec<u8>)| (x.0, x.1@))
}

impl View for VoiceBuffer {
    type V = VoiceModel;

    closed spec fn view(&self) -> VoiceModel {
        VoiceModel { next: self.next, frames: frame_views(self.frames@) }
    }
}

/// The first held frame numbered `n`, if any.
pub open spec fn find_frame(f: Seq<(u64, Seq<u8>)>, n: u64) -> Option<int> {
    if exists|i: int| 0 <= i < f.len() && f[i].0 == n {
        Some(choose|i: int| 0 <= i < f.len() && f[i].0 == n && forall|j: int| 0 <= j < i ==> f[j].0 != n)
    } else {
        None
    }
}

impl VoiceBuffer {
    pub fn new() -> (r: VoiceBuffer)
        ensures
            r@.next == 0,
            r@.frames.len() == 0,
    {
        let r = VoiceBuffer { next: 0, frames: Vec::new() };
        assert(r@.frames =~= Seq::<(u64, Seq<u8>)>::empty());
        r
    }

    /// Holds an arriving frame unless its turn has passed.
    pub fn receive(&mut self, sequence: u64, frame: Vec<u8>)
        ensures
            final(self)@.next == old(self)@.next,
            final(self)@.frames == if sequence >= old(self)@.next {
                old(self)@.frames.push((sequence, frame@))
            } else {
                old(self)@.frames
            },
    {
        if sequence >= self.next {
            let ghost pre = self@;
            self.frames.push((sequence, frame));
            assert(self@.frames =~= pre.frames.push((sequence, frame@)));
        }
    }

    /// The frame to play this tick. While fewer than three frames are held
    /// it waits (`None`). Otherwise the next frame is played: its bytes if
    /// it arrived, an empty frame (a loss, for the decoder to conceal) if
    /// not; and the next number moves on.
    pub fn take_frame(&mut self) -> (r: Option<Vec<u8>>)
        ensures
            old(self)@.frames.len() < VOICE_BUFFER_MIN ==> r is None && final(self)@ == old(self)@,
            old(self)@.frames.len() >= VOICE_BUFFER_MIN ==> {
                &&& r is Some
                &&& final(self)@.next == if old(self)@.next < u64::MAX {
                    (old(self)@.next + 1) as u64
                } else {
                    old(self)@.next
                }
                &&& match find_frame(old(self)@.frames, old(self)@.next) {
                    Some(i) => r->Some_0@ == old(self)@.frames[i].1 && final(self)@.frames
                        == old(self)@.frames.remove(i),
                    None => r->Some_0@.len() == 0 && final(self)@.frames == old(self)@.frames,
                }
            },
    {
        if self.frames.len() < VOICE_BUFFER_MIN {
            return None;
        }
        let ghost pre = self@;
        let mut i: usize = 0;
        while i < self.frames.len()
            invariant
                self@ == pre,
                i <= self.frames@.len(),
                forall|j: int| 0 <= j < i ==> pre.frames[j].0 != pre.next,
            ensures
                self@ == pre,
                i <= self.frames@.len(),
                forall|j: int| 0 <= j < i ==> pre.frames[j].0 != pre.next,
                i < self.frames@.len() ==> pre.frames[i as int].0 == pre.next,
            decreases self.frames@.len() - i,
        {
            if self.frames[i].0 == self.next {
                break ;
            }
            i = i + 1;
        }
        let r = if i < self.frames.len() {
            let (_, f) = self.frames.remove(i);
            proof {
                assert(pre.frames[i as int].0 == pre.next);
                let k = find_frame(pre.frames, pre.next)->Some_0;
                assert(k == i) by {
                    if k < i {
                    } else if k > i {
                    }
                }
                assert(self@.frames =~= pre.frames.remove(i as int));
            }
            f
        } else {
            proof {
                assert(!exists|j: int| 0 <= j < pre.frames.len() && pre.frames[j].0 == pre.next);
            }
            Vec::new()
        };
        if self.next < u64::MAX {
            self.next = self.next + 1;
        }
        Some(r)
    }
}

} // verus!
