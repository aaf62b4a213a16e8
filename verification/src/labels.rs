//! AudioSet's 527 class names, in the order the model's own configuration
//! gives them (index 0 is "Speech", 501 is "Sine wave"), and the choice of the
//! classes a window's scores name.
//!
//! The module reaches no filesystem when it runs, so the names travel as
//! source.

use vstd::prelude::*;

verus! {

/// How many classes the model's final layer has, and so how long a call's
/// `logits` tensor must be.
pub const COUNT: usize = 527;

/// The class names, in class order.
pub const LABELS: [&'static str; 527] = [
    "Speech",
    "Male speech, man speaking",
    "Female speech, woman speaking",
    "Child speech, kid speaking",
    "Conversation",
    "Narration, monologue",
    "Babbling",
    "Speech synthesizer",
    "Shout",
    "Bellow",
    "Whoop",
    "Yell",
    "Battle cry",
    "Children shouting",
    "Screaming",
    "Whispering",
    "Laughter",
    "Baby laughter",
    "Giggle",
    "Snicker",
    "Belly laugh",
    "Chuckle, chortle",
    "Crying, sobbing",
    "Baby cry, infant cry",
    "Whimper",
    "Wail, moan",
    "Sigh",
    "Singing",
    "Choir",
    "Yodeling",
    "Chant",
    "Mantra",
    "Male singing",
    "Female singing",
    "Child singing",
    "Synthetic singing",
    "Rapping",
    "Humming",
    "Groan",
    "Grunt",
    "Whistling",
    "Breathing",
    "Wheeze",
    "Snoring",
    "Gasp",
    "Pant",
    "Snort",
    "Cough",
    "Throat clearing",
    "Sneeze",
    "Sniff",
    "Run",
    "Shuffle",
    "Walk, footsteps",
    "Chewing, mastication",
    "Biting",
    "Gargling",
    "Stomach rumble",
    "Burping, eructation",
    "Hiccup",
    "Fart",
    "Hands",
    "Finger snapping",
    "Clapping",
    "Heart sounds, heartbeat",
    "Heart murmur",
    "Cheering",
    "Applause",
    "Chatter",
    "Crowd",
    "Hubbub, speech noise, speech babble",
    "Children playing",
    "Animal",
    "Domestic animals, pets",
    "Dog",
    "Bark",
    "Yip",
    "Howl",
    "Bow-wow",
    "Growling",
    "Whimper (dog)",
    "Cat",
    "Purr",
    "Meow",
    "Hiss",
    "Caterwaul",
    "Livestock, farm animals, working animals",
    "Horse",
    "Clip-clop",
    "Neigh, whinny",
    "Cattle, bovinae",
    "Moo",
    "Cowbell",
    "Pig",
    "Oink",
    "Goat",
    "Bleat",
    "Sheep",
    "Fowl",
    "Chicken, rooster",
    "Cluck",
    "Crowing, cock-a-doodle-doo",
    "Turkey",
    "Gobble",
    "Duck",
    "Quack",
    "Goose",
    "Honk",
    "Wild animals",
    "Roaring cats (lions, tigers)",
    "Roar",
    "Bird",
    "Bird vocalization, bird call, bird song",
    "Chirp, tweet",
    "Squawk",
    "Pigeon, dove",
    "Coo",
    "Crow",
    "Caw",
    "Owl",
    "Hoot",
    "Bird flight, flapping wings",
    "Canidae, dogs, wolves",
    "Rodents, rats, mice",
    "Mouse",
    "Patter",
    "Insect",
    "Cricket",
    "Mosquito",
    "Fly, housefly",
    "Buzz",
    "Bee, wasp, etc.",
    "Frog",
    "Croak",
    "Snake",
    "Rattle",
    "Whale vocalization",
    "Music",
    "Musical instrument",
    "Plucked string instrument",
    "Guitar",
    "Electric guitar",
    "Bass guitar",
    "Acoustic guitar",
    "Steel guitar, slide guitar",
    "Tapping (guitar technique)",
    "Strum",
    "Banjo",
    "Sitar",
    "Mandolin",
    "Zither",
    "Ukulele",
    "Keyboard (musical)",
    "Piano",
    "Electric piano",
    "Organ",
    "Electronic organ",
    "Hammond organ",
    "Synthesizer",
    "Sampler",
    "Harpsichord",
    "Percussion",
    "Drum kit",
    "Drum machine",
    "Drum",
    "Snare drum",
    "Rimshot",
    "Drum roll",
    "Bass drum",
    "Timpani",
    "Tabla",
    "Cymbal",
    "Hi-hat",
    "Wood block",
    "Tambourine",
    "Rattle (instrument)",
    "Maraca",
    "Gong",
    "Tubular bells",
    "Mallet percussion",
    "Marimba, xylophone",
    "Glockenspiel",
    "Vibraphone",
    "Steelpan",
    "Orchestra",
    "Brass instrument",
    "French horn",
    "Trumpet",
    "Trombone",
    "Bowed string instrument",
    "String section",
    "Violin, fiddle",
    "Pizzicato",
    "Cello",
    "Double bass",
    "Wind instrument, woodwind instrument",
    "Flute",
    "Saxophone",
    "Clarinet",
    "Harp",
    "Bell",
    "Church bell",
    "Jingle bell",
    "Bicycle bell",
    "Tuning fork",
    "Chime",
    "Wind chime",
    "Change ringing (campanology)",
    "Harmonica",
    "Accordion",
    "Bagpipes",
    "Didgeridoo",
    "Shofar",
    "Theremin",
    "Singing bowl",
    "Scratching (performance technique)",
    "Pop music",
    "Hip hop music",
    "Beatboxing",
    "Rock music",
    "Heavy metal",
    "Punk rock",
    "Grunge",
    "Progressive rock",
    "Rock and roll",
    "Psychedelic rock",
    "Rhythm and blues",
    "Soul music",
    "Reggae",
    "Country",
    "Swing music",
    "Bluegrass",
    "Funk",
    "Folk music",
    "Middle Eastern music",
    "Jazz",
    "Disco",
    "Classical music",
    "Opera",
    "Electronic music",
    "House music",
    "Techno",
    "Dubstep",
    "Drum and bass",
    "Electronica",
    "Electronic dance music",
    "Ambient music",
    "Trance music",
    "Music of Latin America",
    "Salsa music",
    "Flamenco",
    "Blues",
    "Music for children",
    "New-age music",
    "Vocal music",
    "A capella",
    "Music of Africa",
    "Afrobeat",
    "Christian music",
    "Gospel music",
    "Music of Asia",
    "Carnatic music",
    "Music of Bollywood",
    "Ska",
    "Traditional music",
    "Independent music",
    "Song",
    "Background music",
    "Theme music",
    "Jingle (music)",
    "Soundtrack music",
    "Lullaby",
    "Video game music",
    "Christmas music",
    "Dance music",
    "Wedding music",
    "Happy music",
    "Funny music",
    "Sad music",
    "Tender music",
    "Exciting music",
    "Angry music",
    "Scary music",
    "Wind",
    "Rustling leaves",
    "Wind noise (microphone)",
    "Thunderstorm",
    "Thunder",
    "Water",
    "Rain",
    "Raindrop",
    "Rain on surface",
    "Stream",
    "Waterfall",
    "Ocean",
    "Waves, surf",
    "Steam",
    "Gurgling",
    "Fire",
    "Crackle",
    "Vehicle",
    "Boat, Water vehicle",
    "Sailboat, sailing ship",
    "Rowboat, canoe, kayak",
    "Motorboat, speedboat",
    "Ship",
    "Motor vehicle (road)",
    "Car",
    "Vehicle horn, car horn, honking",
    "Toot",
    "Car alarm",
    "Power windows, electric windows",
    "Skidding",
    "Tire squeal",
    "Car passing by",
    "Race car, auto racing",
    "Truck",
    "Air brake",
    "Air horn, truck horn",
    "Reversing beeps",
    "Ice cream truck, ice cream van",
    "Bus",
    "Emergency vehicle",
    "Police car (siren)",
    "Ambulance (siren)",
    "Fire engine, fire truck (siren)",
    "Motorcycle",
    "Traffic noise, roadway noise",
    "Rail transport",
    "Train",
    "Train whistle",
    "Train horn",
    "Railroad car, train wagon",
    "Train wheels squealing",
    "Subway, metro, underground",
    "Aircraft",
    "Aircraft engine",
    "Jet engine",
    "Propeller, airscrew",
    "Helicopter",
    "Fixed-wing aircraft, airplane",
    "Bicycle",
    "Skateboard",
    "Engine",
    "Light engine (high frequency)",
    "Dental drill, dentist's drill",
    "Lawn mower",
    "Chainsaw",
    "Medium engine (mid frequency)",
    "Heavy engine (low frequency)",
    "Engine knocking",
    "Engine starting",
    "Idling",
    "Accelerating, revving, vroom",
    "Door",
    "Doorbell",
    "Ding-dong",
    "Sliding door",
    "Slam",
    "Knock",
    "Tap",
    "Squeak",
    "Cupboard open or close",
    "Drawer open or close",
    "Dishes, pots, and pans",
    "Cutlery, silverware",
    "Chopping (food)",
    "Frying (food)",
    "Microwave oven",
    "Blender",
    "Water tap, faucet",
    "Sink (filling or washing)",
    "Bathtub (filling or washing)",
    "Hair dryer",
    "Toilet flush",
    "Toothbrush",
    "Electric toothbrush",
    "Vacuum cleaner",
    "Zipper (clothing)",
    "Keys jangling",
    "Coin (dropping)",
    "Scissors",
    "Electric shaver, electric razor",
    "Shuffling cards",
    "Typing",
    "Typewriter",
    "Computer keyboard",
    "Writing",
    "Alarm",
    "Telephone",
    "Telephone bell ringing",
    "Ringtone",
    "Telephone dialing, DTMF",
    "Dial tone",
    "Busy signal",
    "Alarm clock",
    "Siren",
    "Civil defense siren",
    "Buzzer",
    "Smoke detector, smoke alarm",
    "Fire alarm",
    "Foghorn",
    "Whistle",
    "Steam whistle",
    "Mechanisms",
    "Ratchet, pawl",
    "Clock",
    "Tick",
    "Tick-tock",
    "Gears",
    "Pulleys",
    "Sewing machine",
    "Mechanical fan",
    "Air conditioning",
    "Cash register",
    "Printer",
    "Camera",
    "Single-lens reflex camera",
    "Tools",
    "Hammer",
    "Jackhammer",
    "Sawing",
    "Filing (rasp)",
    "Sanding",
    "Power tool",
    "Drill",
    "Explosion",
    "Gunshot, gunfire",
    "Machine gun",
    "Fusillade",
    "Artillery fire",
    "Cap gun",
    "Fireworks",
    "Firecracker",
    "Burst, pop",
    "Eruption",
    "Boom",
    "Wood",
    "Chop",
    "Splinter",
    "Crack",
    "Glass",
    "Chink, clink",
    "Shatter",
    "Liquid",
    "Splash, splatter",
    "Slosh",
    "Squish",
    "Drip",
    "Pour",
    "Trickle, dribble",
    "Gush",
    "Fill (with liquid)",
    "Spray",
    "Pump (liquid)",
    "Stir",
    "Boiling",
    "Sonar",
    "Arrow",
    "Whoosh, swoosh, swish",
    "Thump, thud",
    "Thunk",
    "Electronic tuner",
    "Effects unit",
    "Chorus effect",
    "Basketball bounce",
    "Bang",
    "Slap, smack",
    "Whack, thwack",
    "Smash, crash",
    "Breaking",
    "Bouncing",
    "Whip",
    "Flap",
    "Scratch",
    "Scrape",
    "Rub",
    "Roll",
    "Crushing",
    "Crumpling, crinkling",
    "Tearing",
    "Beep, bleep",
    "Ping",
    "Ding",
    "Clang",
    "Squeal",
    "Creak",
    "Rustle",
    "Whir",
    "Clatter",
    "Sizzle",
    "Clicking",
    "Clickety-clack",
    "Rumble",
    "Plop",
    "Jingle, tinkle",
    "Hum",
    "Zing",
    "Boing",
    "Crunch",
    "Silence",
    "Sine wave",
    "Harmonic",
    "Chirp tone",
    "Sound effect",
    "Pulse",
    "Inside, small room",
    "Inside, large room or hall",
    "Inside, public space",
    "Outside, urban or manmade",
    "Outside, rural or natural",
    "Reverberation",
    "Echo",
    "Noise",
    "Environmental noise",
    "Static",
    "Mains hum",
    "Distortion",
    "Sidetone",
    "Cacophony",
    "White noise",
    "Pink noise",
    "Throbbing",
    "Vibration",
    "Television",
    "Radio",
    "Field recording",
];

/// The class name at `index`, or `None` past the end.
pub fn label(index: usize) -> (name: Option<&'static str>)
    ensures
        index < COUNT ==> name == Some(LABELS@[index as int]),
        index >= COUNT ==> name is None,
{
    if index < COUNT {
        Some(LABELS[index])
    } else {
        None
    }
}

/// The class names, in class order.
pub fn labels() -> (names: Vec<&'static str>)
    ensures
        names@ == LABELS@,
{
    let mut names: Vec<&'static str> = Vec::new();
    let mut i: usize = 0;
    while i < COUNT
        invariant
            i <= COUNT,
            names@ == LABELS@.take(i as int),
        decreases COUNT - i,
    {
        names.push(LABELS[i]);
        i = i + 1;
        assert(names@ =~= LABELS@.take(i as int));
    }
    assert(LABELS@.take(i as int) =~= LABELS@);
    names
}

/// Whether one scored class ranks before another: the higher score does, and
/// of two equal ones the earlier class.
pub open spec fn before(a: (usize, u64), b: (usize, u64)) -> bool {
    a.1 > b.1 || (a.1 == b.1 && a.0 < b.0)
}

/// Whether class `i` is scored at or above the threshold.
pub open spec fn clears(scores: Seq<Option<u64>>, threshold: u64, i: int) -> bool {
    scores[i] matches Some(score) && score >= threshold
}

/// Whether `picked` are the `top` highest of the first `count` classes that
/// clear the threshold, highest first.
pub open spec fn is_top(
    scores: Seq<Option<u64>>,
    count: int,
    threshold: u64,
    top: int,
    picked: Seq<(usize, u64)>,
) -> bool {
    &&& picked.len() <= top
    &&& forall|k: int|
        0 <= k < picked.len() ==> (#[trigger] picked[k]).0 < count && clears(
            scores,
            threshold,
            picked[k].0 as int,
        ) && scores[picked[k].0 as int] == Some(picked[k].1)
    &&& forall|j: int, k: int| 0 <= j < k < picked.len() ==> before(picked[j], picked[k])
    &&& forall|i: int|
        0 <= i < count && #[trigger] clears(scores, threshold, i) ==> is_picked(picked, i) || (
        picked.len() == top && forall|k: int|
            0 <= k < picked.len() ==> before(picked[k], (i as usize, scores[i]->0)))
}

/// Whether class `i` is among those picked.
pub open spec fn is_picked(picked: Seq<(usize, u64)>, i: int) -> bool {
    exists|k: int| 0 <= k < picked.len() && (#[trigger] picked[k]).0 == i
}

/// The classes scored at or above `threshold`, cut to the `top` highest - the
/// label index paired with its own score, highest first.
///
/// A score is carried as an integer that orders as the probability does, the
/// way a probability's own bit pattern orders; a score that is no number is
/// absent, and clears no threshold.
pub fn top_labels(scores: &[Option<u64>], threshold: u64, top: usize) -> (picked: Vec<(usize, u64)>)
    requires
        scores@.len() == COUNT,
    ensures
        is_top(scores@, COUNT as int, threshold, top as int, picked@),
{
    let mut picked: Vec<(usize, u64)> = Vec::new();
    let mut i: usize = 0;
    while i < scores.len()
        invariant
            i <= scores@.len(),
            scores@.len() == COUNT,
            is_top(scores@, i as int, threshold, top as int, picked@),
        decreases scores@.len() - i,
    {
        let ghost was = picked@;
        if let Some(score) = scores[i] {
            if score >= threshold {
                let mut at: usize = 0;
                while at < picked.len() && picked[at].1 >= score
                    invariant
                        at <= picked@.len(),
                        picked@ == was,
                        forall|k: int| 0 <= k < at ==> (#[trigger] picked@[k]).1 >= score,
                    decreases picked@.len() - at,
                {
                    at = at + 1;
                }
                picked.insert(at, (i, score));
                let ghost full = picked@;
                if picked.len() > top {
                    let _ = picked.pop();
                }
                proof {
                    lemma_inserted(scores@, i as int, threshold, top as int, was, at as int, score);
                    assert(full == was.insert(at as int, (i, score)));
                    assert(picked@ =~= if full.len() > top {
                        full.drop_last()
                    } else {
                        full
                    });
                }
            }
        }
        i = i + 1;
    }
    picked
}

proof fn lemma_inserted(
    scores: Seq<Option<u64>>,
    i: int,
    threshold: u64,
    top: int,
    was: Seq<(usize, u64)>,
    at: int,
    score: u64,
)
    requires
        0 <= i < scores.len(),
        i <= usize::MAX,
        scores[i] == Some(score),
        score >= threshold,
        0 <= top,
        is_top(scores, i, threshold, top, was),
        0 <= at <= was.len(),
        forall|k: int| 0 <= k < at ==> (#[trigger] was[k]).1 >= score,
        at < was.len() ==> was[at].1 < score,
    ensures
        ({
            let full = was.insert(at, (i as usize, score));
            is_top(
                scores,
                i + 1,
                threshold,
                top,
                if full.len() > top {
                    full.drop_last()
                } else {
                    full
                },
            )
        }),
{
    let new = (i as usize, score);
    let full = was.insert(at, new);
    let now = if full.len() > top {
        full.drop_last()
    } else {
        full
    };
    assert forall|j: int, k: int| 0 <= j < k < full.len() implies before(full[j], full[k]) by {
        if j < at && k == at {
            assert(was[j].1 >= score && was[j].0 < i);
        } else if j == at && k > at {
            assert(full[k] == was[k - 1]);
            if k - 1 > at {
                assert(before(was[at], was[k - 1]));
            }
        } else if j < at && k < at {
            assert(before(was[j], was[k]));
        } else if j < at && k > at {
            assert(before(was[j], was[k - 1]));
        } else {
            assert(before(was[j - 1], was[k - 1]));
        }
    }
    assert forall|k: int| 0 <= k < now.len() implies (#[trigger] now[k]).0 < i + 1 && clears(
        scores,
        threshold,
        now[k].0 as int,
    ) && scores[now[k].0 as int] == Some(now[k].1) by {
        if k < at {
            assert(now[k] == was[k]);
        } else if k > at {
            assert(now[k] == was[k - 1]);
        } else {
            assert(now[k] == new);
        }
    }
    assert forall|c: int| 0 <= c < i + 1 && #[trigger] clears(scores, threshold, c) implies
        is_picked(now, c) || (now.len() == top && forall|k: int|
        0 <= k < now.len() ==> before(now[k], (c as usize, scores[c]->0))) by {
        let scored = (c as usize, scores[c]->0);
        if c == i {
            if now.len() == full.len() || at < now.len() {
                assert(now[at].0 == i);
            } else {
                assert forall|k: int| 0 <= k < now.len() implies before(now[k], scored) by {
                    assert(before(full[k], full[at]));
                }
            }
        } else if is_picked(was, c) {
            let k = choose|k: int| 0 <= k < was.len() && (#[trigger] was[k]).0 == c;
            let m = if k < at {
                k
            } else {
                k + 1
            };
            assert(full[m] == was[k]);
            if m < now.len() {
                assert(now[m].0 == c);
            } else {
                assert(was[k] == scored);
                assert forall|h: int| 0 <= h < now.len() implies before(now[h], scored) by {
                    assert(before(full[h], full[m]));
                }
            }
        } else {
            assert forall|h: int| 0 <= h < now.len() implies before(now[h], scored) by {
                if h < at {
                    assert(before(was[h], scored));
                } else if h > at {
                    assert(now[h] == was[h - 1]);
                    assert(before(was[h - 1], scored));
                } else {
                    if at < was.len() {
                        assert(before(was[at], scored));
                    } else {
                        assert(now.len() == top == was.len());
                    }
                }
            }
        }
    }
}

/// The ranking is determined: no two different lists are the top of the same
/// scores.
pub proof fn law_the_top_is_determined(
    scores: Seq<Option<u64>>,
    count: int,
    threshold: u64,
    top: int,
    a: Seq<(usize, u64)>,
    b: Seq<(usize, u64)>,
)
    requires
        0 <= count <= scores.len(),
        count <= usize::MAX,
        is_top(scores, count, threshold, top, a),
        is_top(scores, count, threshold, top, b),
    ensures
        a == b,
{
    lemma_same_prefix(scores, count, threshold, top, a, b, a.len() as int);
    lemma_same_prefix(scores, count, threshold, top, b, a, b.len() as int);
    assert(a =~= b);
}

/// What the picking comes to, in numbers. Every score picked is the score of
/// its own class and at least the threshold, no more are picked than asked for,
/// and they come highest first, of equal ones the earlier class first. A class
/// scored at least the threshold is picked, or as many as were asked for rank
/// before it.
pub proof fn law_the_top_are_the_highest_at_least_the_threshold(
    scores: Seq<Option<u64>>,
    threshold: u64,
    top: int,
    picked: Seq<(usize, u64)>,
)
    requires
        scores.len() == 527,
        is_top(scores, COUNT as int, threshold, top, picked),
    ensures
        picked.len() <= top,
        forall|k: int|
            0 <= k < picked.len() ==> {
                &&& (#[trigger] picked[k]).1 >= threshold
                &&& picked[k].0 < 527
                &&& scores[picked[k].0 as int] == Some(picked[k].1)
            },
        forall|j: int, k: int|
            0 <= j < k < picked.len() ==> (#[trigger] picked[j]).1 >= (#[trigger] picked[k]).1 && (
            picked[j].1 == picked[k].1 ==> picked[j].0 < picked[k].0),
        forall|i: int|
            0 <= i < 527 && (#[trigger] scores[i]) is Some && scores[i]->0 >= threshold ==> (
            exists|k: int|
                0 <= k < picked.len() && #[trigger] picked[k] == (i as usize, scores[i]->0)) || (
            picked.len() == top && forall|k: int|
                0 <= k < picked.len() ==> (#[trigger] picked[k]).1 >= scores[i]->0 && (picked[k].1
                    == scores[i]->0 ==> picked[k].0 < i)),
{
    assert forall|j: int, k: int| 0 <= j < k < picked.len() implies (#[trigger] picked[j]).1 >= (
    #[trigger] picked[k]).1 && (picked[j].1 == picked[k].1 ==> picked[j].0 < picked[k].0) by {
        assert(before(picked[j], picked[k]));
    }
    assert forall|i: int|
        0 <= i < 527 && (#[trigger] scores[i]) is Some && scores[i]->0 >= threshold implies (
    exists|k: int| 0 <= k < picked.len() && #[trigger] picked[k] == (i as usize, scores[i]->0)) || (
    picked.len() == top && forall|k: int|
        0 <= k < picked.len() ==> (#[trigger] picked[k]).1 >= scores[i]->0 && (picked[k].1
            == scores[i]->0 ==> picked[k].0 < i)) by {
        let score = scores[i]->0;
        assert(clears(scores, threshold, i));
        if is_picked(picked, i) {
            let k = choose|k: int| 0 <= k < picked.len() && (#[trigger] picked[k]).0 == i;
            assert(picked[k] == (i as usize, score));
        } else {
            assert forall|k: int| 0 <= k < picked.len() implies (#[trigger] picked[k]).1 >= score
                && (picked[k].1 == score ==> picked[k].0 < i) by {
                assert(before(picked[k], (i as usize, scores[i]->0)));
            }
        }
    }
}

/// Raising the threshold only cuts the ranking short: what is picked at the
/// higher threshold is what was picked at the lower one, up to the first score
/// below the higher.
pub proof fn law_a_higher_threshold_cuts_the_ranking_short(
    scores: Seq<Option<u64>>,
    low: u64,
    high: u64,
    top: int,
    wide: Seq<(usize, u64)>,
    narrow: Seq<(usize, u64)>,
)
    requires
        scores.len() == 527,
        low <= high,
        is_top(scores, COUNT as int, low, top, wide),
        is_top(scores, COUNT as int, high, top, narrow),
    ensures
        narrow.len() <= wide.len(),
        narrow == wide.take(narrow.len() as int),
        narrow.len() < wide.len() ==> wide[narrow.len() as int].1 < high,
{
    let n = lemma_reach(scores, low, high, top, wide, wide.len() as int);
    let cut = wide.take(n);
    assert forall|i: int| 0 <= i < COUNT && #[trigger] clears(scores, high, i) implies is_picked(
        cut,
        i,
    ) || (cut.len() == top && forall|k: int|
        0 <= k < cut.len() ==> before(cut[k], (i as usize, scores[i]->0))) by {
        assert(clears(scores, low, i));
        if is_picked(wide, i) {
            let k = choose|k: int| 0 <= k < wide.len() && (#[trigger] wide[k]).0 == i;
            assert(wide[k].1 >= high);
            assert(k < n);
            assert(cut[k].0 == i);
        } else {
            assert forall|k: int| 0 <= k < wide.len() implies (#[trigger] wide[k]).1 >= high by {
                assert(before(wide[k], (i as usize, scores[i]->0)));
            }
            assert(n == wide.len()) by {
                if n < wide.len() {
                    assert(wide[n].1 < high);
                }
            }
            assert(cut =~= wide);
        }
    }
    law_the_top_is_determined(scores, COUNT as int, high, top, cut, narrow);
}

/// How many of a ranking's first `m` reach a threshold.
proof fn lemma_reach(
    scores: Seq<Option<u64>>,
    low: u64,
    high: u64,
    top: int,
    wide: Seq<(usize, u64)>,
    m: int,
) -> (n: int)
    requires
        is_top(scores, COUNT as int, low, top, wide),
        0 <= m <= wide.len(),
    ensures
        0 <= n <= m,
        forall|k: int| 0 <= k < n ==> (#[trigger] wide[k]).1 >= high,
        forall|k: int| n <= k < m ==> (#[trigger] wide[k]).1 < high,
    decreases m,
{
    if m == 0 {
        0
    } else {
        let n = lemma_reach(scores, low, high, top, wide, m - 1);
        if wide[m - 1].1 >= high {
            assert forall|k: int| 0 <= k < m implies (#[trigger] wide[k]).1 >= high by {
                if k < m - 1 {
                    assert(before(wide[k], wide[m - 1]));
                }
            }
            m
        } else {
            n
        }
    }
}

/// Asking for more only lengthens the ranking: the fewer picked are the first
/// of the more.
pub proof fn law_asking_for_more_lengthens_the_ranking(
    scores: Seq<Option<u64>>,
    threshold: u64,
    few: int,
    many: int,
    short: Seq<(usize, u64)>,
    long: Seq<(usize, u64)>,
)
    requires
        scores.len() == 527,
        0 <= few <= many,
        is_top(scores, COUNT as int, threshold, few, short),
        is_top(scores, COUNT as int, threshold, many, long),
    ensures
        short == long.take(short.len() as int),
        short.len() == if long.len() < few {
            long.len() as int
        } else {
            few
        },
{
    let n = if long.len() < few {
        long.len() as int
    } else {
        few
    };
    let cut = long.take(n);
    assert forall|i: int| 0 <= i < COUNT && #[trigger] clears(scores, threshold, i) implies is_picked(
        cut,
        i,
    ) || (cut.len() == few && forall|k: int|
        0 <= k < cut.len() ==> before(cut[k], (i as usize, scores[i]->0))) by {
        if is_picked(long, i) {
            let k = choose|k: int| 0 <= k < long.len() && (#[trigger] long[k]).0 == i;
            if k < n {
                assert(cut[k].0 == i);
            } else {
                assert forall|h: int| 0 <= h < cut.len() implies before(
                    cut[h],
                    (i as usize, scores[i]->0),
                ) by {
                    assert(before(long[h], long[k]));
                }
            }
        } else {
            assert forall|h: int| 0 <= h < cut.len() implies before(
                cut[h],
                (i as usize, scores[i]->0),
            ) by {
                assert(before(long[h], (i as usize, scores[i]->0)));
            }
        }
    }
    law_the_top_is_determined(scores, COUNT as int, threshold, few, cut, short);
}

proof fn lemma_same_prefix(
    scores: Seq<Option<u64>>,
    count: int,
    threshold: u64,
    top: int,
    a: Seq<(usize, u64)>,
    b: Seq<(usize, u64)>,
    n: int,
)
    requires
        0 <= count <= scores.len(),
        count <= usize::MAX,
        is_top(scores, count, threshold, top, a),
        is_top(scores, count, threshold, top, b),
        0 <= n <= a.len(),
    ensures
        n <= b.len(),
        forall|k: int| 0 <= k < n ==> a[k] == b[k],
    decreases n,
{
    if n > 0 {
        let k = n - 1;
        lemma_same_prefix(scores, count, threshold, top, a, b, k);
        let c = a[k].0 as int;
        assert(clears(scores, threshold, c));
        if is_picked(b, c) {
            let m = choose|m: int| 0 <= m < b.len() && (#[trigger] b[m]).0 == c;
            assert(b[m] == a[k]);
            if m < k {
                assert(before(a[m], a[k]));
            } else if m > k {
                assert(before(b[k], b[m]));
                let d = b[k].0 as int;
                assert(clears(scores, threshold, d));
                if is_picked(a, d) {
                    let h = choose|h: int| 0 <= h < a.len() && (#[trigger] a[h]).0 == d;
                    assert(a[h] == b[k]);
                    if h < k {
                        assert(before(b[h], b[k]));
                    } else if h > k {
                        assert(before(a[k], a[h]));
                    }
                } else {
                    assert(before(a[k], b[k]));
                }
            }
        } else {
            assert(b.len() == top);
            assert(before(b[k], a[k]));
            let d = b[k].0 as int;
            assert(clears(scores, threshold, d));
            if is_picked(a, d) {
                let h = choose|h: int| 0 <= h < a.len() && (#[trigger] a[h]).0 == d;
                assert(a[h] == b[k]);
                if h < k {
                    assert(before(b[h], b[k]));
                } else if h > k {
                    assert(before(a[k], a[h]));
                }
            } else {
                assert(before(a[k], b[k]));
            }
        }
    }
}

} // verus!
