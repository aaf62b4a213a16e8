//! No two of the model's classes have one name.
//!
//! A name's length and a few of its letters tell where it stands: `place`
//! reads them, and each name is found where it is listed.

use crate::labels::{COUNT, LABELS};
use vstd::prelude::*;

verus! {

/// Whether a letter comes before another.
spec fn under(s: Seq<char>, at: int, c: char) -> bool {
    (s[at] as u32) < (c as u32)
}

/// Where a name stands among the classes.
#[verifier::opaque]
spec fn place(s: Seq<char>) -> int {
    if s.len() == 3 {
        place_3(s)
    } else if s.len() == 4 {
        place_4(s)
    } else if s.len() == 5 {
        place_5(s)
    } else if s.len() == 6 {
        place_6(s)
    } else if s.len() == 7 {
        place_7(s)
    } else if s.len() == 8 {
        place_8(s)
    } else if s.len() == 9 {
        place_9(s)
    } else if s.len() == 10 {
        place_10(s)
    } else if s.len() == 11 {
        place_11(s)
    } else if s.len() == 12 {
        place_12(s)
    } else if s.len() == 13 {
        place_13(s)
    } else if s.len() == 14 {
        place_14(s)
    } else if s.len() == 15 {
        place_15(s)
    } else if s.len() == 16 {
        place_16(s)
    } else if s.len() == 17 {
        place_17(s)
    } else if s.len() == 18 {
        place_18(s)
    } else if s.len() == 19 {
        place_19(s)
    } else if s.len() == 20 {
        place_20(s)
    } else if s.len() == 21 {
        place_21(s)
    } else if s.len() == 22 {
        place_22(s)
    } else if s.len() == 23 {
        place_23(s)
    } else if s.len() == 25 {
        place_25(s)
    } else if s.len() == 26 {
        place_26(s)
    } else if s.len() == 27 {
        place_27(s)
    } else if s.len() == 28 {
        place_28(s)
    } else if s.len() == 29 {
        place_29(s)
    } else if s.len() == 30 {
        place_30(s)
    } else if s.len() == 31 {
        place_31(s)
    } else if s.len() == 34 {
        place_34(s)
    } else if s.len() == 35 {
        place_35(s)
    } else if s.len() == 36 {
        place_36(s)
    } else if s.len() == 39 {
        place_39(s)
    } else if s.len() == 40 {
        place_40(s)
    } else {
        -1
    }
}

spec fn place_3(s: Seq<char>) -> int {
    if under(s, 0, 'M') {
        if under(s, 1, 'o') {
            if under(s, 2, 't') {
                307
            } else {
                if under(s, 2, 'w') { 81 } else { 118 }
            }
        } else {
            if under(s, 0, 'D') {
                if under(s, 0, 'C') { 321 } else { 116 }
            } else {
                if under(s, 0, 'H') { 74 } else { 496 }
            }
        }
    } else {
        if under(s, 1, 'o') {
            if under(s, 0, 'T') {
                if under(s, 0, 'S') { 93 } else { 263 }
            } else {
                if under(s, 0, 'Y') { 360 } else { 76 }
            }
        } else {
            if under(s, 0, 'R') {
                if under(s, 0, 'O') { 91 } else { 119 }
            } else {
                if under(s, 2, 'n') { 476 } else { 51 }
            }
        }
    }
}

spec fn place_4(s: Seq<char>) -> int {
    if under(s, 1, 'l') {
        if under(s, 0, 'M') {
            if under(s, 0, 'E') {
                if under(s, 1, 'h') {
                    if under(s, 1, 'e') {
                        if under(s, 2, 'r') { 466 } else { 75 }
                    } else {
                        200
                    }
                } else {
                    if under(s, 0, 'C') {
                        111
                    } else {
                        if under(s, 0, 'D') { 438 } else { 483 }
                    }
                }
            } else {
                if under(s, 0, 'G') {
                    if under(s, 0, 'F') {
                        512
                    } else {
                        if under(s, 1, 'i') { 60 } else { 298 }
                    }
                } else {
                    if under(s, 3, 's') {
                        if under(s, 0, 'H') { 44 } else { 199 }
                    } else {
                        if under(s, 0, 'J') { 84 } else { 235 }
                    }
                }
            }
        } else {
            if under(s, 0, 'T') {
                if under(s, 0, 'R') {
                    if under(s, 0, 'P') {
                        if under(s, 0, 'O') { 83 } else { 94 }
                    } else {
                        if under(s, 1, 'i') { 45 } else { 482 }
                    }
                } else {
                    if under(s, 0, 'S') {
                        289
                    } else {
                        if under(s, 1, 'i') { 305 } else { 26 }
                    }
                }
            } else {
                if under(s, 1, 'i') {
                    if under(s, 0, 'Y') {
                        if under(s, 3, 'r') { 472 } else { 488 }
                    } else {
                        11
                    }
                } else {
                    if under(s, 0, 'W') {
                        407
                    } else {
                        if under(s, 0, 'Z') { 283 } else { 497 }
                    }
                }
            }
        }
    } else {
        if under(s, 0, 'H') {
            if under(s, 0, 'F') {
                if under(s, 0, 'D') {
                    if under(s, 0, 'C') {
                        if under(s, 1, 'u') { 436 } else { 130 }
                    } else {
                        117
                    }
                } else {
                    if under(s, 2, 'o') {
                        if under(s, 1, 'u') { 448 } else { 104 }
                    } else {
                        if under(s, 1, 'r') { 354 } else { 164 }
                    }
                }
            } else {
                if under(s, 0, 'G') {
                    if under(s, 1, 'r') {
                        if under(s, 1, 'o') { 473 } else { 98 }
                    } else {
                        if under(s, 1, 'u') { 132 } else { 232 }
                    }
                } else {
                    if under(s, 1, 'u') {
                        if under(s, 2, 'n') { 95 } else { 177 }
                    } else {
                        451
                    }
                }
            }
        } else {
            if under(s, 0, 'R') {
                if under(s, 0, 'P') {
                    if under(s, 2, 'o') {
                        107
                    } else {
                        if under(s, 2, 'w') { 120 } else { 77 }
                    }
                } else {
                    if under(s, 1, 'o') {
                        494
                    } else {
                        if under(s, 1, 'u') { 449 } else { 82 }
                    }
                }
            } else {
                if under(s, 2, 'l') {
                    if under(s, 0, 'S') {
                        110
                    } else {
                        if under(s, 1, 't') { 358 } else { 455 }
                    }
                } else {
                    if under(s, 0, 'T') {
                        if under(s, 0, 'S') { 477 } else { 266 }
                    } else {
                        if under(s, 0, 'W') { 309 } else { 437 }
                    }
                }
            }
        }
    }
}

spec fn place_5(s: Seq<char>) -> int {
    if under(s, 0, 'M') {
        if under(s, 2, 'o') {
            if under(s, 3, 'm') {
                if under(s, 1, 'l') {
                    if under(s, 0, 'C') {
                        147
                    } else {
                        if under(s, 0, 'H') { 193 } else { 61 }
                    }
                } else {
                    if under(s, 3, 'c') {
                        if under(s, 0, 'C') { 96 } else { 486 }
                    } else {
                        if under(s, 0, 'D') { 440 } else { 425 }
                    }
                }
            } else {
                if under(s, 1, 'l') {
                    if under(s, 0, 'G') {
                        if under(s, 2, 'i') { 30 } else { 205 }
                    } else {
                        409
                    }
                } else {
                    if under(s, 0, 'C') {
                        if under(s, 0, 'B') { 388 } else { 498 }
                    } else {
                        if under(s, 0, 'G') { 484 } else { 441 }
                    }
                }
            }
        } else {
            if under(s, 0, 'D') {
                if under(s, 1, 'o') {
                    if under(s, 2, 'u') {
                        if under(s, 1, 'l') { 28 } else { 406 }
                    } else {
                        if under(s, 0, 'C') { 251 } else { 100 }
                    }
                } else {
                    if under(s, 2, 'r') {
                        if under(s, 3, 'w') { 133 } else { 69 }
                    } else {
                        if under(s, 0, 'C') { 458 } else { 47 }
                    }
                }
            } else {
                if under(s, 1, 'o') {
                    if under(s, 0, 'F') {
                        236
                    } else {
                        if under(s, 0, 'K') { 196 } else { 359 }
                    }
                } else {
                    if under(s, 1, 'r') {
                        if under(s, 0, 'H') { 106 } else { 87 }
                    } else {
                        if under(s, 2, 'u') { 38 } else { 39 }
                    }
                }
            }
        }
    } else {
        if under(s, 1, 'o') {
            if under(s, 1, 'i') {
                if under(s, 0, 'T') {
                    if under(s, 0, 'S') {
                        if under(s, 0, 'R') { 294 } else { 525 }
                    } else {
                        if under(s, 2, 'o') { 97 } else { 8 }
                    }
                } else {
                    if under(s, 0, 'W') {
                        if under(s, 1, 'h') { 170 } else { 461 }
                    } else {
                        if under(s, 1, 'h') { 288 } else { 10 }
                    }
                }
            } else {
                if under(s, 1, 'l') {
                    if under(s, 0, 'S') {
                        153
                    } else {
                        if under(s, 2, 't') { 396 } else { 148 }
                    }
                } else {
                    if under(s, 2, 'o') {
                        if under(s, 2, 'i') { 134 } else { 50 }
                    } else {
                        if under(s, 1, 'n') { 446 } else { 46 }
                    }
                }
            }
        } else {
            if under(s, 0, 'S') {
                if under(s, 0, 'O') {
                    if under(s, 0, 'N') {
                        if under(s, 1, 'u') { 124 } else { 137 }
                    } else {
                        513
                    }
                } else {
                    if under(s, 0, 'P') {
                        if under(s, 1, 'r') { 238 } else { 155 }
                    } else {
                        if under(s, 0, 'Q') { 505 } else { 105 }
                    }
                }
            } else {
                if under(s, 0, 'T') {
                    if under(s, 1, 't') {
                        if under(s, 1, 'p') { 457 } else { 453 }
                    } else {
                        if under(s, 2, 'r') { 296 } else { 146 }
                    }
                } else {
                    if under(s, 1, 'r') {
                        418
                    } else {
                        if under(s, 2, 'u') { 329 } else { 316 }
                    }
                }
            }
        }
    }
}

spec fn place_6(s: Seq<char>) -> int {
    if under(s, 0, 'R') {
        if under(s, 3, 'l') {
            if under(s, 0, 'H') {
                if under(s, 0, 'E') {
                    if under(s, 0, 'C') {
                        55
                    } else {
                        if under(s, 1, 'y') { 416 } else { 171 }
                    }
                } else {
                    if under(s, 0, 'G') {
                        343
                    } else {
                        if under(s, 1, 'o') { 18 } else { 103 }
                    }
                }
            } else {
                if under(s, 0, 'I') {
                    if under(s, 2, 'c') { 172 } else { 59 }
                } else {
                    if under(s, 0, 'M') {
                        if under(s, 1, 'n') { 352 } else { 126 }
                    } else {
                        176
                    }
                }
            }
        } else {
            if under(s, 1, 'n') {
                if under(s, 0, 'L') {
                    if under(s, 0, 'H') { 9 } else { 419 }
                } else {
                    if under(s, 0, 'M') {
                        444
                    } else {
                        if under(s, 0, 'P') { 31 } else { 125 }
                    }
                }
            } else {
                if under(s, 0, 'C') {
                    if under(s, 0, 'B') { 72 } else { 398 }
                } else {
                    if under(s, 0, 'G') {
                        499
                    } else {
                        if under(s, 1, 'u') { 222 } else { 140 }
                    }
                }
            }
        }
    } else {
        if under(s, 1, 'p') {
            if under(s, 1, 'h') {
                if under(s, 0, 'S') {
                    if under(s, 1, 'e') { 135 } else { 228 }
                } else {
                    if under(s, 0, 'T') {
                        if under(s, 1, 'c') { 421 } else { 475 }
                    } else {
                        241
                    }
                }
            } else {
                if under(s, 0, 'W') {
                    if under(s, 1, 'i') {
                        212
                    } else {
                        if under(s, 1, 'n') { 490 } else { 49 }
                    }
                } else {
                    if under(s, 0, 'Z') { 42 } else { 150 }
                }
            }
        } else {
            if under(s, 1, 't') {
                if under(s, 4, 'c') {
                    if under(s, 5, 'l') { 361 } else { 485 }
                } else {
                    if under(s, 1, 'q') {
                        0
                    } else {
                        if under(s, 3, 'i') { 114 } else { 447 }
                    }
                }
            } else {
                if under(s, 2, 'r') {
                    if under(s, 0, 'S') {
                        493
                    } else {
                        if under(s, 0, 'T') { 515 } else { 384 }
                    }
                } else {
                    if under(s, 0, 'S') {
                        487
                    } else {
                        if under(s, 0, 'T') { 292 } else { 102 }
                    }
                }
            }
        }
    }
}

spec fn place_7(s: Seq<char>) -> int {
    if under(s, 0, 'S') {
        if under(s, 2, 'l') {
            if under(s, 2, 'e') {
                if under(s, 1, 'l') {
                    if under(s, 0, 'C') { 341 } else { 68 }
                } else {
                    if under(s, 0, 'D') {
                        if under(s, 1, 'r') { 489 } else { 299 }
                    } else {
                        242
                    }
                }
            } else {
                if under(s, 0, 'C') {
                    if under(s, 1, 'o') { 369 } else { 456 }
                } else {
                    if under(s, 0, 'F') {
                        127
                    } else {
                        if under(s, 0, 'P') { 401 } else { 415 }
                    }
                }
            }
        } else {
            if under(s, 0, 'H') {
                if under(s, 2, 'w') {
                    if under(s, 1, 'o') { 431 } else { 229 }
                } else {
                    if under(s, 0, 'C') { 78 } else { 92 }
                }
            } else {
                if under(s, 0, 'P') {
                    if under(s, 0, 'L') { 37 } else { 271 }
                } else {
                    if under(s, 0, 'R') {
                        410
                    } else {
                        if under(s, 1, 'i') { 36 } else { 166 }
                    }
                }
            }
        }
    } else {
        if under(s, 0, 'T') {
            if under(s, 1, 'i') {
                if under(s, 1, 'c') {
                    if under(s, 2, 'n') { 159 } else { 423 }
                } else {
                    if under(s, 1, 'h') {
                        474
                    } else {
                        if under(s, 2, 'u') { 443 } else { 52 }
                    }
                }
            } else {
                if under(s, 1, 'n') {
                    if under(s, 2, 'n') { 500 } else { 27 }
                } else {
                    if under(s, 2, 'o') { 19 } else { 43 }
                }
            }
        } else {
            if under(s, 0, 'U') {
                if under(s, 1, 'i') {
                    if under(s, 1, 'h') { 480 } else { 287 }
                } else {
                    if under(s, 1, 'r') { 169 } else { 187 }
                }
            } else {
                if under(s, 0, 'W') {
                    if under(s, 0, 'V') { 151 } else { 300 }
                } else {
                    if under(s, 1, 'r') {
                        if under(s, 3, 's') { 24 } else { 402 }
                    } else {
                        387
                    }
                }
            }
        }
    }
}

spec fn place_8(s: Seq<char>) -> int {
    if under(s, 0, 'G') {
        if under(s, 2, 'i') {
            if under(s, 1, 'l') {
                if under(s, 0, 'C') {
                    if under(s, 2, 'g') { 6 } else { 210 }
                } else {
                    if under(s, 2, 'e') { 347 } else { 66 }
                }
            } else {
                if under(s, 3, 'p') {
                    if under(s, 0, 'F') { 470 } else { 250 }
                } else {
                    if under(s, 3, 'r') { 63 } else { 198 }
                }
            }
        } else {
            if under(s, 0, 'C') {
                if under(s, 1, 'o') {
                    if under(s, 1, 'i') { 257 } else { 335 }
                } else {
                    if under(s, 0, 'B') { 67 } else { 471 }
                }
            } else {
                if under(s, 0, 'D') {
                    if under(s, 1, 'r') { 491 } else { 478 }
                } else {
                    if under(s, 0, 'E') {
                        if under(s, 1, 'r') { 355 } else { 162 }
                    } else {
                        435
                    }
                }
            }
        }
    } else {
        if under(s, 0, 'S') {
            if under(s, 0, 'L') {
                if under(s, 1, 'r') {
                    if under(s, 0, 'H') { 56 } else { 502 }
                } else {
                    if under(s, 1, 'u') { 79 } else { 297 }
                }
            } else {
                if under(s, 0, 'R') {
                    if under(s, 0, 'M') {
                        16
                    } else {
                        if under(s, 1, 'o') { 149 } else { 128 }
                    }
                } else {
                    if under(s, 1, 'i') { 290 } else { 391 }
                }
            }
        } else {
            if under(s, 1, 'o') {
                if under(s, 1, 'i') {
                    if under(s, 0, 'T') { 381 } else { 213 }
                } else {
                    if under(s, 1, 'k') { 518 } else { 312 }
                }
            } else {
                if under(s, 0, 'T') {
                    if under(s, 1, 't') { 439 } else { 183 }
                } else {
                    if under(s, 0, 'Y') { 188 } else { 29 }
                }
            }
        }
    }
}

spec fn place_9(s: Seq<char>) -> int {
    if under(s, 0, 'H') {
        if under(s, 2, 'r') {
            if under(s, 2, 'e') {
                if under(s, 0, 'C') {
                    if under(s, 1, 'c') { 255 } else { 209 }
                } else {
                    if under(s, 0, 'D') { 519 } else { 393 }
                }
            } else {
                if under(s, 0, 'D') {
                    if under(s, 0, 'C') { 41 } else { 88 }
                } else {
                    if under(s, 0, 'E') { 356 } else { 426 }
                }
            }
        } else {
            if under(s, 4, 'g') {
                if under(s, 0, 'C') {
                    if under(s, 0, 'B') { 317 } else { 168 }
                } else {
                    if under(s, 0, 'D') { 310 } else { 167 }
                }
            } else {
                if under(s, 0, 'F') {
                    if under(s, 0, 'C') { 231 } else { 85 }
                } else {
                    if under(s, 1, 'u') { 432 } else { 429 }
                }
            }
        }
    } else {
        if under(s, 4, 'm') {
            if under(s, 5, 's') {
                if under(s, 0, 'S') {
                    if under(s, 1, 'u') { 192 } else { 221 }
                } else {
                    if under(s, 0, 'T') { 14 } else { 522 }
                }
            } else {
                if under(s, 0, 'T') {
                    if under(s, 0, 'S') { 184 } else { 501 }
                } else {
                    if under(s, 0, 'V') { 408 } else { 523 }
                }
            }
        } else {
            if under(s, 2, 'p') {
                if under(s, 0, 'T') {
                    if under(s, 0, 'S') { 516 } else { 278 }
                } else {
                    if under(s, 0, 'W') { 389 } else { 40 }
                }
            } else {
                if under(s, 0, 'S') {
                    if under(s, 0, 'P') { 208 } else { 216 }
                } else {
                    if under(s, 0, 'W') { 197 } else { 293 }
                }
            }
        }
    }
}

spec fn place_10(s: Seq<char>) -> int {
    if under(s, 2, 'm') {
        if under(s, 0, 'R') {
            if under(s, 0, 'H') {
                if under(s, 0, 'D') {
                    if under(s, 0, 'C') { 218 } else { 503 }
                } else {
                    if under(s, 0, 'F') { 211 } else { 233 }
                }
            } else {
                if under(s, 0, 'J') {
                    if under(s, 1, 'e') { 373 } else { 339 }
                } else {
                    if under(s, 0, 'M') { 420 } else { 404 }
                }
            }
        } else {
            if under(s, 1, 'k') {
                if under(s, 0, 'W') {
                    if under(s, 0, 'V') { 524 } else { 182 }
                } else {
                    if under(s, 1, 'h') { 25 } else { 15 }
                }
            } else {
                if under(s, 1, 'o') {
                    if under(s, 1, 'n') { 342 } else { 165 }
                } else {
                    if under(s, 0, 'T') { 219 } else { 331 }
                }
            }
        }
    } else {
        if under(s, 3, 'k') {
            if under(s, 0, 'T') {
                if under(s, 0, 'P') {
                    if under(s, 0, 'J') { 400 } else { 337 }
                } else {
                    if under(s, 1, 'o') { 161 } else { 424 }
                }
            } else {
                if under(s, 0, 'W') {
                    if under(s, 1, 'y') { 174 } else { 385 }
                } else {
                    if under(s, 1, 'o') { 206 } else { 173 }
                }
            }
        } else {
            if under(s, 0, 'M') {
                if under(s, 0, 'D') {
                    if under(s, 1, 'u') { 12 } else { 434 }
                } else {
                    if under(s, 0, 'L') { 517 } else { 346 }
                }
            } else {
                if under(s, 0, 'S') {
                    if under(s, 0, 'P') { 326 } else { 521 }
                } else {
                    if under(s, 0, 'T') { 227 } else { 375 }
                }
            }
        }
    }
}

spec fn place_11(s: Seq<char>) -> int {
    if under(s, 1, 'i') {
        if under(s, 0, 'M') {
            if under(s, 0, 'D') {
                if under(s, 2, 's') {
                    if under(s, 2, 'l') { 481 } else { 20 }
                } else {
                    if under(s, 0, 'C') { 142 } else { 201 }
                }
            } else {
                if under(s, 2, 'p') {
                    if under(s, 0, 'H') { 274 } else { 220 }
                } else {
                    if under(s, 2, 'r') { 276 } else { 160 }
                }
            }
        } else {
            if under(s, 0, 'T') {
                if under(s, 0, 'S') {
                    428
                } else {
                    if under(s, 1, 'c') { 249 } else { 282 }
                }
            } else {
                if under(s, 0, 'W') {
                    if under(s, 2, 'u') { 268 } else { 460 }
                } else {
                    if under(s, 1, 'h') { 295 } else { 520 }
                }
            }
        }
    } else {
        if under(s, 0, 'H') {
            if under(s, 0, 'E') {
                if under(s, 0, 'B') {
                    if under(s, 1, 'n') { 395 } else { 281 }
                } else {
                    if under(s, 0, 'D') { 394 } else { 194 }
                }
            } else {
                if under(s, 1, 'r') {
                    if under(s, 0, 'F') { 244 } else { 433 }
                } else {
                    if under(s, 1, 'u') { 186 } else { 277 }
                }
            }
        } else {
            if under(s, 3, 'n') {
                if under(s, 1, 'o') {
                    if under(s, 0, 'T') { 202 } else { 313 }
                } else {
                    if under(s, 0, 'V') { 204 } else { 254 }
                }
            } else {
                if under(s, 1, 'w') {
                    if under(s, 0, 'S') { 240 } else { 467 }
                } else {
                    if under(s, 1, 'y') { 230 } else { 158 }
                }
            }
        }
    }
}

spec fn place_12(s: Seq<char>) -> int {
    if under(s, 0, 'P') {
        if under(s, 0, 'E') {
            if under(s, 1, 'i') {
                if under(s, 3, 'r') { 442 } else { 113 }
            } else {
                if under(s, 0, 'C') {
                    203
                } else {
                    if under(s, 0, 'D') { 4 } else { 163 }
                }
            }
        } else {
            if under(s, 0, 'H') {
                if under(s, 0, 'G') {
                    463
                } else {
                    if under(s, 1, 'o') { 181 } else { 259 }
                }
            } else {
                if under(s, 0, 'M') { 65 } else { 32 }
            }
        }
    } else {
        if under(s, 0, 'T') {
            if under(s, 1, 'l') {
                if under(s, 0, 'S') { 115 } else { 214 }
            } else {
                if under(s, 1, 'm') {
                    357
                } else {
                    if under(s, 1, 'o') { 469 } else { 504 }
                }
            }
        } else {
            if under(s, 1, 'i') {
                if under(s, 1, 'h') { 279 } else { 286 }
            } else {
                if under(s, 0, 'W') {
                    if under(s, 1, 'r') { 374 } else { 247 }
                } else {
                    108
                }
            }
        }
    }
}

spec fn place_13(s: Seq<char>) -> int {
    if under(s, 0, 'M') {
        if under(s, 0, 'F') {
            if under(s, 2, 'o') {
                if under(s, 0, 'B') {
                    246
                } else {
                    if under(s, 0, 'C') { 17 } else { 34 }
                }
            } else {
                if under(s, 0, 'D') {
                    if under(s, 1, 'h') { 414 } else { 464 }
                } else {
                    243
                }
            }
        } else {
            if under(s, 0, 'H') {
                if under(s, 1, 'l') {
                    422
                } else {
                    if under(s, 1, 'r') { 129 } else { 367 }
                }
            } else {
                if under(s, 0, 'K') {
                    if under(s, 1, 'i') { 157 } else { 217 }
                } else {
                    379
                }
            }
        }
    } else {
        if under(s, 0, 'S') {
            if under(s, 0, 'P') {
                if under(s, 0, 'N') {
                    260
                } else {
                    if under(s, 2, 'w') { 89 } else { 253 }
                }
            } else {
                if under(s, 1, 'o') {
                    if under(s, 1, 'e') { 405 } else { 511 }
                } else {
                    if under(s, 0, 'R') { 454 } else { 224 }
                }
            }
        } else {
            if under(s, 0, 'W') {
                if under(s, 0, 'T') {
                    403
                } else {
                    if under(s, 1, 'u') { 330 } else { 178 }
                }
            } else {
                if under(s, 1, 'h') {
                    275
                } else {
                    if under(s, 2, 'i') { 468 } else { 80 }
                }
            }
        }
    }
}

spec fn place_14(s: Seq<char>) -> int {
    if under(s, 0, 'M') {
        if under(s, 0, 'E') {
            if under(s, 1, 'l') {
                if under(s, 3, 'n') { 314 } else { 261 }
            } else {
                if under(s, 0, 'C') { 430 } else { 492 }
            }
        } else {
            if under(s, 0, 'F') {
                if under(s, 1, 'x') { 154 } else { 280 }
            } else {
                if under(s, 0, 'J') {
                    33
                } else {
                    if under(s, 6, ',') { 269 } else { 495 }
                }
            }
        }
    } else {
        if under(s, 1, 'i') {
            if under(s, 0, 'S') {
                if under(s, 0, 'R') { 412 } else { 328 }
            } else {
                if under(s, 0, 'V') { 411 } else { 377 }
            }
        } else {
            if under(s, 1, 't') {
                if under(s, 0, 'V') { 368 } else { 191 }
            } else {
                if under(s, 2, 'r') { 57 } else { 190 }
            }
        }
    }
}

spec fn place_15(s: Seq<char>) -> int {
    if under(s, 1, 'i') {
        if under(s, 0, 'R') {
            if under(s, 1, 'h') {
                if under(s, 0, 'B') {
                    143
                } else {
                    if under(s, 0, 'C') { 131 } else { 90 }
                }
            } else {
                if under(s, 2, 'r') {
                    366
                } else {
                    if under(s, 6, 'm') { 258 } else { 273 }
                }
            }
        } else {
            if under(s, 0, 'S') {
                if under(s, 1, 'e') { 291 } else { 319 }
            } else {
                if under(s, 0, 'T') {
                    383
                } else {
                    if under(s, 0, 'W') { 48 } else { 53 }
                }
            }
        }
    } else {
        if under(s, 1, 'n') {
            if under(s, 0, 'E') {
                if under(s, 0, 'C') { 336 } else { 237 }
            } else {
                if under(s, 0, 'F') {
                    141
                } else {
                    if under(s, 2, 'n') { 526 } else { 62 }
                }
            }
        } else {
            if under(s, 1, 'r') {
                if under(s, 0, 'E') {
                    380
                } else {
                    if under(s, 7, 's') { 350 } else { 351 }
                }
            } else {
                if under(s, 0, 'M') {
                    22
                } else {
                    if under(s, 0, 'R') { 256 } else { 284 }
                }
            }
        }
    }
}

spec fn place_16(s: Seq<char>) -> int {
    if under(s, 0, 'G') {
        if under(s, 1, 'i') {
            if under(s, 3, 'k') {
                if under(s, 2, 'u') { 99 } else { 21 }
            } else {
                if under(s, 0, 'C') { 267 } else { 71 }
            }
        } else {
            if under(s, 0, 'E') {
                if under(s, 0, 'B') { 413 } else { 185 }
            } else {
                if under(s, 11, 'o') {
                    239
                } else {
                    if under(s, 11, 't') { 156 } else { 462 }
                }
            }
        }
    } else {
        if under(s, 0, 'S') {
            if under(s, 1, 's') {
                if under(s, 0, 'R') { 223 } else { 226 }
            } else {
                if under(s, 0, 'P') { 427 } else { 225 }
            }
        } else {
            if under(s, 0, 'T') {
                if under(s, 1, 'p') { 270 } else { 445 }
            } else {
                if under(s, 0, 'V') { 450 } else { 272 }
            }
        }
    }
}

spec fn place_17(s: Seq<char>) -> int {
    if under(s, 0, 'I') {
        if under(s, 0, 'C') {
            if under(s, 0, 'B') { 324 } else { 465 }
        } else {
            if under(s, 0, 'E') {
                if under(s, 1, 'o') { 13 } else { 386 }
            } else {
                322
            }
        }
    } else {
        if under(s, 0, 'T') {
            if under(s, 0, 'M') {
                265
            } else {
                if under(s, 0, 'S') { 179 } else { 35 }
            }
        } else {
            if under(s, 0, 'W') {
                264
            } else {
                if under(s, 0, 'Z') { 370 } else { 378 }
            }
        }
    }
}

spec fn place_18(s: Seq<char>) -> int {
    if under(s, 1, 'o') {
        if under(s, 0, 'K') {
            if under(s, 0, 'I') { 452 } else { 506 }
        } else {
            if under(s, 0, 'M') {
                152
            } else {
                if under(s, 0, 'W') { 180 } else { 136 }
            }
        }
    } else {
        if under(s, 0, 'P') {
            if under(s, 5, 'a') {
                if under(s, 6, 'o') { 252 } else { 262 }
            } else {
                138
            }
        } else {
            if under(s, 0, 'S') { 323 } else { 7 }
        }
    }
}

spec fn place_19(s: Seq<char>) -> int {
    if under(s, 0, 'E') {
        if under(s, 0, 'C') {
            if under(s, 1, 'u') { 301 } else { 58 }
        } else {
            if under(s, 1, 'u') { 397 } else { 365 }
        }
    } else {
        if under(s, 0, 'P') {
            if under(s, 1, 'n') { 376 } else { 514 }
        } else {
            if under(s, 0, 'R') {
                338
            } else {
                if under(s, 1, 'o') { 175 } else { 123 }
            }
        }
    }
}

spec fn place_20(s: Seq<char>) -> int {
    if under(s, 0, 'I') {
        if under(s, 0, 'C') {
            if under(s, 0, 'B') { 318 } else { 23 }
        } else {
            if under(s, 0, 'D') {
                if under(s, 1, 'r') { 54 } else { 479 }
            } else {
                363
            }
        }
    } else {
        if under(s, 1, 'n') {
            if under(s, 0, 'N') { 234 } else { 5 }
        } else {
            if under(s, 0, 'M') {
                508
            } else {
                if under(s, 5, 'b') { 306 } else { 304 }
            }
        }
    }
}

spec fn place_21(s: Seq<char>) -> int {
    if under(s, 1, 'h') {
        if under(s, 0, 'R') { 122 } else { 315 }
    } else {
        if under(s, 0, 'W') { 303 } else { 459 }
    }
}

spec fn place_22(s: Seq<char>) -> int {
    if under(s, 0, 'M') {
        if under(s, 1, 'o') {
            if under(s, 0, 'E') { 364 } else { 245 }
        } else {
            if under(s, 0, 'D') { 362 } else { 73 }
        }
    } else {
        if under(s, 0, 'T') {
            if under(s, 0, 'S') { 248 } else { 302 }
        } else {
            if under(s, 1, 'r') { 390 } else { 333 }
        }
    }
}

spec fn place_23(s: Seq<char>) -> int {
    if under(s, 0, 'T') {
        if under(s, 0, 'H') { 189 } else { 64 }
    } else {
        if under(s, 0, 'W') { 392 } else { 285 }
    }
}

spec fn place_25(s: Seq<char>) -> int {
    if under(s, 0, 'P') {
        if under(s, 0, 'O') {
            1
        } else {
            if under(s, 9, 'u') { 510 } else { 509 }
        }
    } else {
        if under(s, 0, 'S') {
            if under(s, 0, 'R') { 139 } else { 332 }
        } else {
            if under(s, 3, 'k') { 417 } else { 371 }
        }
    }
}

spec fn place_26(s: Seq<char>) -> int {
    if under(s, 0, 'S') {
        if under(s, 0, 'I') {
            if under(s, 1, 'r') { 3 } else { 101 }
        } else {
            507
        }
    } else {
        if under(s, 0, 'T') {
            if under(s, 1, 'u') { 144 } else { 334 }
        } else {
            145
        }
    }
}

spec fn place_27(s: Seq<char>) -> int {
    if under(s, 0, 'S') { 121 } else { 399 }
}

spec fn place_28(s: Seq<char>) -> int {
    if under(s, 0, 'H') {
        if under(s, 0, 'B') {
            353
        } else {
            if under(s, 0, 'C') { 372 } else { 207 }
        }
    } else {
        if under(s, 0, 'R') {
            349
        } else {
            if under(s, 0, 'T') { 109 } else { 327 }
        }
    }
}

spec fn place_29(s: Seq<char>) -> int {
    if under(s, 0, 'L') {
        if under(s, 0, 'F') {
            345
        } else {
            if under(s, 1, 'i') { 2 } else { 340 }
        }
    } else {
        if under(s, 0, 'M') { 344 } else { 348 }
    }
}

spec fn place_30(s: Seq<char>) -> int {
    320
}

spec fn place_31(s: Seq<char>) -> int {
    if under(s, 0, 'P') {
        if under(s, 0, 'F') { 382 } else { 325 }
    } else {
        if under(s, 0, 'V') { 311 } else { 308 }
    }
}

spec fn place_34(s: Seq<char>) -> int {
    215
}

spec fn place_35(s: Seq<char>) -> int {
    70
}

spec fn place_36(s: Seq<char>) -> int {
    195
}

spec fn place_39(s: Seq<char>) -> int {
    112
}

spec fn place_40(s: Seq<char>) -> int {
    86
}

/// Whether the name listed for a class is found at that class.
#[verifier::opaque]
spec fn stands(i: int) -> bool {
    place(LABELS@[i]@) == i
}

proof fn lemma_stands_from_0(i: int)
    requires
        0 <= i < 12,
    ensures
        stands(i),
{
    assert(stands(0)) by { reveal(place); reveal(stands); reveal_strlit("Speech"); }
    assert(stands(1)) by { reveal(place); reveal(stands); reveal_strlit("Male speech, man speaking"); }
    assert(stands(2)) by { reveal(place); reveal(stands); reveal_strlit("Female speech, woman speaking"); }
    assert(stands(3)) by { reveal(place); reveal(stands); reveal_strlit("Child speech, kid speaking"); }
    assert(stands(4)) by { reveal(place); reveal(stands); reveal_strlit("Conversation"); }
    assert(stands(5)) by { reveal(place); reveal(stands); reveal_strlit("Narration, monologue"); }
    assert(stands(6)) by { reveal(place); reveal(stands); reveal_strlit("Babbling"); }
    assert(stands(7)) by { reveal(place); reveal(stands); reveal_strlit("Speech synthesizer"); }
    assert(stands(8)) by { reveal(place); reveal(stands); reveal_strlit("Shout"); }
    assert(stands(9)) by { reveal(place); reveal(stands); reveal_strlit("Bellow"); }
    assert(stands(10)) by { reveal(place); reveal(stands); reveal_strlit("Whoop"); }
    assert(stands(11)) by { reveal(place); reveal(stands); reveal_strlit("Yell"); }
}

proof fn lemma_stands_from_12(i: int)
    requires
        12 <= i < 24,
    ensures
        stands(i),
{
    assert(stands(12)) by { reveal(place); reveal(stands); reveal_strlit("Battle cry"); }
    assert(stands(13)) by { reveal(place); reveal(stands); reveal_strlit("Children shouting"); }
    assert(stands(14)) by { reveal(place); reveal(stands); reveal_strlit("Screaming"); }
    assert(stands(15)) by { reveal(place); reveal(stands); reveal_strlit("Whispering"); }
    assert(stands(16)) by { reveal(place); reveal(stands); reveal_strlit("Laughter"); }
    assert(stands(17)) by { reveal(place); reveal(stands); reveal_strlit("Baby laughter"); }
    assert(stands(18)) by { reveal(place); reveal(stands); reveal_strlit("Giggle"); }
    assert(stands(19)) by { reveal(place); reveal(stands); reveal_strlit("Snicker"); }
    assert(stands(20)) by { reveal(place); reveal(stands); reveal_strlit("Belly laugh"); }
    assert(stands(21)) by { reveal(place); reveal(stands); reveal_strlit("Chuckle, chortle"); }
    assert(stands(22)) by { reveal(place); reveal(stands); reveal_strlit("Crying, sobbing"); }
    assert(stands(23)) by { reveal(place); reveal(stands); reveal_strlit("Baby cry, infant cry"); }
}

proof fn lemma_stands_from_24(i: int)
    requires
        24 <= i < 36,
    ensures
        stands(i),
{
    assert(stands(24)) by { reveal(place); reveal(stands); reveal_strlit("Whimper"); }
    assert(stands(25)) by { reveal(place); reveal(stands); reveal_strlit("Wail, moan"); }
    assert(stands(26)) by { reveal(place); reveal(stands); reveal_strlit("Sigh"); }
    assert(stands(27)) by { reveal(place); reveal(stands); reveal_strlit("Singing"); }
    assert(stands(28)) by { reveal(place); reveal(stands); reveal_strlit("Choir"); }
    assert(stands(29)) by { reveal(place); reveal(stands); reveal_strlit("Yodeling"); }
    assert(stands(30)) by { reveal(place); reveal(stands); reveal_strlit("Chant"); }
    assert(stands(31)) by { reveal(place); reveal(stands); reveal_strlit("Mantra"); }
    assert(stands(32)) by { reveal(place); reveal(stands); reveal_strlit("Male singing"); }
    assert(stands(33)) by { reveal(place); reveal(stands); reveal_strlit("Female singing"); }
    assert(stands(34)) by { reveal(place); reveal(stands); reveal_strlit("Child singing"); }
    assert(stands(35)) by { reveal(place); reveal(stands); reveal_strlit("Synthetic singing"); }
}

proof fn lemma_stands_from_36(i: int)
    requires
        36 <= i < 48,
    ensures
        stands(i),
{
    assert(stands(36)) by { reveal(place); reveal(stands); reveal_strlit("Rapping"); }
    assert(stands(37)) by { reveal(place); reveal(stands); reveal_strlit("Humming"); }
    assert(stands(38)) by { reveal(place); reveal(stands); reveal_strlit("Groan"); }
    assert(stands(39)) by { reveal(place); reveal(stands); reveal_strlit("Grunt"); }
    assert(stands(40)) by { reveal(place); reveal(stands); reveal_strlit("Whistling"); }
    assert(stands(41)) by { reveal(place); reveal(stands); reveal_strlit("Breathing"); }
    assert(stands(42)) by { reveal(place); reveal(stands); reveal_strlit("Wheeze"); }
    assert(stands(43)) by { reveal(place); reveal(stands); reveal_strlit("Snoring"); }
    assert(stands(44)) by { reveal(place); reveal(stands); reveal_strlit("Gasp"); }
    assert(stands(45)) by { reveal(place); reveal(stands); reveal_strlit("Pant"); }
    assert(stands(46)) by { reveal(place); reveal(stands); reveal_strlit("Snort"); }
    assert(stands(47)) by { reveal(place); reveal(stands); reveal_strlit("Cough"); }
}

proof fn lemma_stands_from_48(i: int)
    requires
        48 <= i < 60,
    ensures
        stands(i),
{
    assert(stands(48)) by { reveal(place); reveal(stands); reveal_strlit("Throat clearing"); }
    assert(stands(49)) by { reveal(place); reveal(stands); reveal_strlit("Sneeze"); }
    assert(stands(50)) by { reveal(place); reveal(stands); reveal_strlit("Sniff"); }
    assert(stands(51)) by { reveal(place); reveal(stands); reveal_strlit("Run"); }
    assert(stands(52)) by { reveal(place); reveal(stands); reveal_strlit("Shuffle"); }
    assert(stands(53)) by { reveal(place); reveal(stands); reveal_strlit("Walk, footsteps"); }
    assert(stands(54)) by { reveal(place); reveal(stands); reveal_strlit("Chewing, mastication"); }
    assert(stands(55)) by { reveal(place); reveal(stands); reveal_strlit("Biting"); }
    assert(stands(56)) by { reveal(place); reveal(stands); reveal_strlit("Gargling"); }
    assert(stands(57)) by { reveal(place); reveal(stands); reveal_strlit("Stomach rumble"); }
    assert(stands(58)) by { reveal(place); reveal(stands); reveal_strlit("Burping, eructation"); }
    assert(stands(59)) by { reveal(place); reveal(stands); reveal_strlit("Hiccup"); }
}

proof fn lemma_stands_from_60(i: int)
    requires
        60 <= i < 72,
    ensures
        stands(i),
{
    assert(stands(60)) by { reveal(place); reveal(stands); reveal_strlit("Fart"); }
    assert(stands(61)) by { reveal(place); reveal(stands); reveal_strlit("Hands"); }
    assert(stands(62)) by { reveal(place); reveal(stands); reveal_strlit("Finger snapping"); }
    assert(stands(63)) by { reveal(place); reveal(stands); reveal_strlit("Clapping"); }
    assert(stands(64)) by { reveal(place); reveal(stands); reveal_strlit("Heart sounds, heartbeat"); }
    assert(stands(65)) by { reveal(place); reveal(stands); reveal_strlit("Heart murmur"); }
    assert(stands(66)) by { reveal(place); reveal(stands); reveal_strlit("Cheering"); }
    assert(stands(67)) by { reveal(place); reveal(stands); reveal_strlit("Applause"); }
    assert(stands(68)) by { reveal(place); reveal(stands); reveal_strlit("Chatter"); }
    assert(stands(69)) by { reveal(place); reveal(stands); reveal_strlit("Crowd"); }
    assert(stands(70)) by { reveal(place); reveal(stands); reveal_strlit("Hubbub, speech noise, speech babble"); }
    assert(stands(71)) by { reveal(place); reveal(stands); reveal_strlit("Children playing"); }
}

proof fn lemma_stands_from_72(i: int)
    requires
        72 <= i < 84,
    ensures
        stands(i),
{
    assert(stands(72)) by { reveal(place); reveal(stands); reveal_strlit("Animal"); }
    assert(stands(73)) by { reveal(place); reveal(stands); reveal_strlit("Domestic animals, pets"); }
    assert(stands(74)) by { reveal(place); reveal(stands); reveal_strlit("Dog"); }
    assert(stands(75)) by { reveal(place); reveal(stands); reveal_strlit("Bark"); }
    assert(stands(76)) by { reveal(place); reveal(stands); reveal_strlit("Yip"); }
    assert(stands(77)) by { reveal(place); reveal(stands); reveal_strlit("Howl"); }
    assert(stands(78)) by { reveal(place); reveal(stands); reveal_strlit("Bow-wow"); }
    assert(stands(79)) by { reveal(place); reveal(stands); reveal_strlit("Growling"); }
    assert(stands(80)) by { reveal(place); reveal(stands); reveal_strlit("Whimper (dog)"); }
    assert(stands(81)) by { reveal(place); reveal(stands); reveal_strlit("Cat"); }
    assert(stands(82)) by { reveal(place); reveal(stands); reveal_strlit("Purr"); }
    assert(stands(83)) by { reveal(place); reveal(stands); reveal_strlit("Meow"); }
}

proof fn lemma_stands_from_84(i: int)
    requires
        84 <= i < 96,
    ensures
        stands(i),
{
    assert(stands(84)) by { reveal(place); reveal(stands); reveal_strlit("Hiss"); }
    assert(stands(85)) by { reveal(place); reveal(stands); reveal_strlit("Caterwaul"); }
    assert(stands(86)) by { reveal(place); reveal(stands); reveal_strlit("Livestock, farm animals, working animals"); }
    assert(stands(87)) by { reveal(place); reveal(stands); reveal_strlit("Horse"); }
    assert(stands(88)) by { reveal(place); reveal(stands); reveal_strlit("Clip-clop"); }
    assert(stands(89)) by { reveal(place); reveal(stands); reveal_strlit("Neigh, whinny"); }
    assert(stands(90)) by { reveal(place); reveal(stands); reveal_strlit("Cattle, bovinae"); }
    assert(stands(91)) by { reveal(place); reveal(stands); reveal_strlit("Moo"); }
    assert(stands(92)) by { reveal(place); reveal(stands); reveal_strlit("Cowbell"); }
    assert(stands(93)) by { reveal(place); reveal(stands); reveal_strlit("Pig"); }
    assert(stands(94)) by { reveal(place); reveal(stands); reveal_strlit("Oink"); }
    assert(stands(95)) by { reveal(place); reveal(stands); reveal_strlit("Goat"); }
}

proof fn lemma_stands_from_96(i: int)
    requires
        96 <= i < 108,
    ensures
        stands(i),
{
    assert(stands(96)) by { reveal(place); reveal(stands); reveal_strlit("Bleat"); }
    assert(stands(97)) by { reveal(place); reveal(stands); reveal_strlit("Sheep"); }
    assert(stands(98)) by { reveal(place); reveal(stands); reveal_strlit("Fowl"); }
    assert(stands(99)) by { reveal(place); reveal(stands); reveal_strlit("Chicken, rooster"); }
    assert(stands(100)) by { reveal(place); reveal(stands); reveal_strlit("Cluck"); }
    assert(stands(101)) by { reveal(place); reveal(stands); reveal_strlit("Crowing, cock-a-doodle-doo"); }
    assert(stands(102)) by { reveal(place); reveal(stands); reveal_strlit("Turkey"); }
    assert(stands(103)) by { reveal(place); reveal(stands); reveal_strlit("Gobble"); }
    assert(stands(104)) by { reveal(place); reveal(stands); reveal_strlit("Duck"); }
    assert(stands(105)) by { reveal(place); reveal(stands); reveal_strlit("Quack"); }
    assert(stands(106)) by { reveal(place); reveal(stands); reveal_strlit("Goose"); }
    assert(stands(107)) by { reveal(place); reveal(stands); reveal_strlit("Honk"); }
}

proof fn lemma_stands_from_108(i: int)
    requires
        108 <= i < 120,
    ensures
        stands(i),
{
    assert(stands(108)) by { reveal(place); reveal(stands); reveal_strlit("Wild animals"); }
    assert(stands(109)) by { reveal(place); reveal(stands); reveal_strlit("Roaring cats (lions, tigers)"); }
    assert(stands(110)) by { reveal(place); reveal(stands); reveal_strlit("Roar"); }
    assert(stands(111)) by { reveal(place); reveal(stands); reveal_strlit("Bird"); }
    assert(stands(112)) by { reveal(place); reveal(stands); reveal_strlit("Bird vocalization, bird call, bird song"); }
    assert(stands(113)) by { reveal(place); reveal(stands); reveal_strlit("Chirp, tweet"); }
    assert(stands(114)) by { reveal(place); reveal(stands); reveal_strlit("Squawk"); }
    assert(stands(115)) by { reveal(place); reveal(stands); reveal_strlit("Pigeon, dove"); }
    assert(stands(116)) by { reveal(place); reveal(stands); reveal_strlit("Coo"); }
    assert(stands(117)) by { reveal(place); reveal(stands); reveal_strlit("Crow"); }
    assert(stands(118)) by { reveal(place); reveal(stands); reveal_strlit("Caw"); }
    assert(stands(119)) by { reveal(place); reveal(stands); reveal_strlit("Owl"); }
}

proof fn lemma_stands_from_120(i: int)
    requires
        120 <= i < 132,
    ensures
        stands(i),
{
    assert(stands(120)) by { reveal(place); reveal(stands); reveal_strlit("Hoot"); }
    assert(stands(121)) by { reveal(place); reveal(stands); reveal_strlit("Bird flight, flapping wings"); }
    assert(stands(122)) by { reveal(place); reveal(stands); reveal_strlit("Canidae, dogs, wolves"); }
    assert(stands(123)) by { reveal(place); reveal(stands); reveal_strlit("Rodents, rats, mice"); }
    assert(stands(124)) by { reveal(place); reveal(stands); reveal_strlit("Mouse"); }
    assert(stands(125)) by { reveal(place); reveal(stands); reveal_strlit("Patter"); }
    assert(stands(126)) by { reveal(place); reveal(stands); reveal_strlit("Insect"); }
    assert(stands(127)) by { reveal(place); reveal(stands); reveal_strlit("Cricket"); }
    assert(stands(128)) by { reveal(place); reveal(stands); reveal_strlit("Mosquito"); }
    assert(stands(129)) by { reveal(place); reveal(stands); reveal_strlit("Fly, housefly"); }
    assert(stands(130)) by { reveal(place); reveal(stands); reveal_strlit("Buzz"); }
    assert(stands(131)) by { reveal(place); reveal(stands); reveal_strlit("Bee, wasp, etc."); }
}

proof fn lemma_stands_from_132(i: int)
    requires
        132 <= i < 144,
    ensures
        stands(i),
{
    assert(stands(132)) by { reveal(place); reveal(stands); reveal_strlit("Frog"); }
    assert(stands(133)) by { reveal(place); reveal(stands); reveal_strlit("Croak"); }
    assert(stands(134)) by { reveal(place); reveal(stands); reveal_strlit("Snake"); }
    assert(stands(135)) by { reveal(place); reveal(stands); reveal_strlit("Rattle"); }
    assert(stands(136)) by { reveal(place); reveal(stands); reveal_strlit("Whale vocalization"); }
    assert(stands(137)) by { reveal(place); reveal(stands); reveal_strlit("Music"); }
    assert(stands(138)) by { reveal(place); reveal(stands); reveal_strlit("Musical instrument"); }
    assert(stands(139)) by { reveal(place); reveal(stands); reveal_strlit("Plucked string instrument"); }
    assert(stands(140)) by { reveal(place); reveal(stands); reveal_strlit("Guitar"); }
    assert(stands(141)) by { reveal(place); reveal(stands); reveal_strlit("Electric guitar"); }
    assert(stands(142)) by { reveal(place); reveal(stands); reveal_strlit("Bass guitar"); }
    assert(stands(143)) by { reveal(place); reveal(stands); reveal_strlit("Acoustic guitar"); }
}

proof fn lemma_stands_from_144(i: int)
    requires
        144 <= i < 156,
    ensures
        stands(i),
{
    assert(stands(144)) by { reveal(place); reveal(stands); reveal_strlit("Steel guitar, slide guitar"); }
    assert(stands(145)) by { reveal(place); reveal(stands); reveal_strlit("Tapping (guitar technique)"); }
    assert(stands(146)) by { reveal(place); reveal(stands); reveal_strlit("Strum"); }
    assert(stands(147)) by { reveal(place); reveal(stands); reveal_strlit("Banjo"); }
    assert(stands(148)) by { reveal(place); reveal(stands); reveal_strlit("Sitar"); }
    assert(stands(149)) by { reveal(place); reveal(stands); reveal_strlit("Mandolin"); }
    assert(stands(150)) by { reveal(place); reveal(stands); reveal_strlit("Zither"); }
    assert(stands(151)) by { reveal(place); reveal(stands); reveal_strlit("Ukulele"); }
    assert(stands(152)) by { reveal(place); reveal(stands); reveal_strlit("Keyboard (musical)"); }
    assert(stands(153)) by { reveal(place); reveal(stands); reveal_strlit("Piano"); }
    assert(stands(154)) by { reveal(place); reveal(stands); reveal_strlit("Electric piano"); }
    assert(stands(155)) by { reveal(place); reveal(stands); reveal_strlit("Organ"); }
}

proof fn lemma_stands_from_156(i: int)
    requires
        156 <= i < 168,
    ensures
        stands(i),
{
    assert(stands(156)) by { reveal(place); reveal(stands); reveal_strlit("Electronic organ"); }
    assert(stands(157)) by { reveal(place); reveal(stands); reveal_strlit("Hammond organ"); }
    assert(stands(158)) by { reveal(place); reveal(stands); reveal_strlit("Synthesizer"); }
    assert(stands(159)) by { reveal(place); reveal(stands); reveal_strlit("Sampler"); }
    assert(stands(160)) by { reveal(place); reveal(stands); reveal_strlit("Harpsichord"); }
    assert(stands(161)) by { reveal(place); reveal(stands); reveal_strlit("Percussion"); }
    assert(stands(162)) by { reveal(place); reveal(stands); reveal_strlit("Drum kit"); }
    assert(stands(163)) by { reveal(place); reveal(stands); reveal_strlit("Drum machine"); }
    assert(stands(164)) by { reveal(place); reveal(stands); reveal_strlit("Drum"); }
    assert(stands(165)) by { reveal(place); reveal(stands); reveal_strlit("Snare drum"); }
    assert(stands(166)) by { reveal(place); reveal(stands); reveal_strlit("Rimshot"); }
    assert(stands(167)) by { reveal(place); reveal(stands); reveal_strlit("Drum roll"); }
}

proof fn lemma_stands_from_168(i: int)
    requires
        168 <= i < 180,
    ensures
        stands(i),
{
    assert(stands(168)) by { reveal(place); reveal(stands); reveal_strlit("Bass drum"); }
    assert(stands(169)) by { reveal(place); reveal(stands); reveal_strlit("Timpani"); }
    assert(stands(170)) by { reveal(place); reveal(stands); reveal_strlit("Tabla"); }
    assert(stands(171)) by { reveal(place); reveal(stands); reveal_strlit("Cymbal"); }
    assert(stands(172)) by { reveal(place); reveal(stands); reveal_strlit("Hi-hat"); }
    assert(stands(173)) by { reveal(place); reveal(stands); reveal_strlit("Wood block"); }
    assert(stands(174)) by { reveal(place); reveal(stands); reveal_strlit("Tambourine"); }
    assert(stands(175)) by { reveal(place); reveal(stands); reveal_strlit("Rattle (instrument)"); }
    assert(stands(176)) by { reveal(place); reveal(stands); reveal_strlit("Maraca"); }
    assert(stands(177)) by { reveal(place); reveal(stands); reveal_strlit("Gong"); }
    assert(stands(178)) by { reveal(place); reveal(stands); reveal_strlit("Tubular bells"); }
    assert(stands(179)) by { reveal(place); reveal(stands); reveal_strlit("Mallet percussion"); }
}

proof fn lemma_stands_from_180(i: int)
    requires
        180 <= i < 192,
    ensures
        stands(i),
{
    assert(stands(180)) by { reveal(place); reveal(stands); reveal_strlit("Marimba, xylophone"); }
    assert(stands(181)) by { reveal(place); reveal(stands); reveal_strlit("Glockenspiel"); }
    assert(stands(182)) by { reveal(place); reveal(stands); reveal_strlit("Vibraphone"); }
    assert(stands(183)) by { reveal(place); reveal(stands); reveal_strlit("Steelpan"); }
    assert(stands(184)) by { reveal(place); reveal(stands); reveal_strlit("Orchestra"); }
    assert(stands(185)) by { reveal(place); reveal(stands); reveal_strlit("Brass instrument"); }
    assert(stands(186)) by { reveal(place); reveal(stands); reveal_strlit("French horn"); }
    assert(stands(187)) by { reveal(place); reveal(stands); reveal_strlit("Trumpet"); }
    assert(stands(188)) by { reveal(place); reveal(stands); reveal_strlit("Trombone"); }
    assert(stands(189)) by { reveal(place); reveal(stands); reveal_strlit("Bowed string instrument"); }
    assert(stands(190)) by { reveal(place); reveal(stands); reveal_strlit("String section"); }
    assert(stands(191)) by { reveal(place); reveal(stands); reveal_strlit("Violin, fiddle"); }
}

proof fn lemma_stands_from_192(i: int)
    requires
        192 <= i < 204,
    ensures
        stands(i),
{
    assert(stands(192)) by { reveal(place); reveal(stands); reveal_strlit("Pizzicato"); }
    assert(stands(193)) by { reveal(place); reveal(stands); reveal_strlit("Cello"); }
    assert(stands(194)) by { reveal(place); reveal(stands); reveal_strlit("Double bass"); }
    assert(stands(195)) by { reveal(place); reveal(stands); reveal_strlit("Wind instrument, woodwind instrument"); }
    assert(stands(196)) by { reveal(place); reveal(stands); reveal_strlit("Flute"); }
    assert(stands(197)) by { reveal(place); reveal(stands); reveal_strlit("Saxophone"); }
    assert(stands(198)) by { reveal(place); reveal(stands); reveal_strlit("Clarinet"); }
    assert(stands(199)) by { reveal(place); reveal(stands); reveal_strlit("Harp"); }
    assert(stands(200)) by { reveal(place); reveal(stands); reveal_strlit("Bell"); }
    assert(stands(201)) by { reveal(place); reveal(stands); reveal_strlit("Church bell"); }
    assert(stands(202)) by { reveal(place); reveal(stands); reveal_strlit("Jingle bell"); }
    assert(stands(203)) by { reveal(place); reveal(stands); reveal_strlit("Bicycle bell"); }
}

proof fn lemma_stands_from_204(i: int)
    requires
        204 <= i < 216,
    ensures
        stands(i),
{
    assert(stands(204)) by { reveal(place); reveal(stands); reveal_strlit("Tuning fork"); }
    assert(stands(205)) by { reveal(place); reveal(stands); reveal_strlit("Chime"); }
    assert(stands(206)) by { reveal(place); reveal(stands); reveal_strlit("Wind chime"); }
    assert(stands(207)) by { reveal(place); reveal(stands); reveal_strlit("Change ringing (campanology)"); }
    assert(stands(208)) by { reveal(place); reveal(stands); reveal_strlit("Harmonica"); }
    assert(stands(209)) by { reveal(place); reveal(stands); reveal_strlit("Accordion"); }
    assert(stands(210)) by { reveal(place); reveal(stands); reveal_strlit("Bagpipes"); }
    assert(stands(211)) by { reveal(place); reveal(stands); reveal_strlit("Didgeridoo"); }
    assert(stands(212)) by { reveal(place); reveal(stands); reveal_strlit("Shofar"); }
    assert(stands(213)) by { reveal(place); reveal(stands); reveal_strlit("Theremin"); }
    assert(stands(214)) by { reveal(place); reveal(stands); reveal_strlit("Singing bowl"); }
    assert(stands(215)) by { reveal(place); reveal(stands); reveal_strlit("Scratching (performance technique)"); }
}

proof fn lemma_stands_from_216(i: int)
    requires
        216 <= i < 228,
    ensures
        stands(i),
{
    assert(stands(216)) by { reveal(place); reveal(stands); reveal_strlit("Pop music"); }
    assert(stands(217)) by { reveal(place); reveal(stands); reveal_strlit("Hip hop music"); }
    assert(stands(218)) by { reveal(place); reveal(stands); reveal_strlit("Beatboxing"); }
    assert(stands(219)) by { reveal(place); reveal(stands); reveal_strlit("Rock music"); }
    assert(stands(220)) by { reveal(place); reveal(stands); reveal_strlit("Heavy metal"); }
    assert(stands(221)) by { reveal(place); reveal(stands); reveal_strlit("Punk rock"); }
    assert(stands(222)) by { reveal(place); reveal(stands); reveal_strlit("Grunge"); }
    assert(stands(223)) by { reveal(place); reveal(stands); reveal_strlit("Progressive rock"); }
    assert(stands(224)) by { reveal(place); reveal(stands); reveal_strlit("Rock and roll"); }
    assert(stands(225)) by { reveal(place); reveal(stands); reveal_strlit("Psychedelic rock"); }
    assert(stands(226)) by { reveal(place); reveal(stands); reveal_strlit("Rhythm and blues"); }
    assert(stands(227)) by { reveal(place); reveal(stands); reveal_strlit("Soul music"); }
}

proof fn lemma_stands_from_228(i: int)
    requires
        228 <= i < 240,
    ensures
        stands(i),
{
    assert(stands(228)) by { reveal(place); reveal(stands); reveal_strlit("Reggae"); }
    assert(stands(229)) by { reveal(place); reveal(stands); reveal_strlit("Country"); }
    assert(stands(230)) by { reveal(place); reveal(stands); reveal_strlit("Swing music"); }
    assert(stands(231)) by { reveal(place); reveal(stands); reveal_strlit("Bluegrass"); }
    assert(stands(232)) by { reveal(place); reveal(stands); reveal_strlit("Funk"); }
    assert(stands(233)) by { reveal(place); reveal(stands); reveal_strlit("Folk music"); }
    assert(stands(234)) by { reveal(place); reveal(stands); reveal_strlit("Middle Eastern music"); }
    assert(stands(235)) by { reveal(place); reveal(stands); reveal_strlit("Jazz"); }
    assert(stands(236)) by { reveal(place); reveal(stands); reveal_strlit("Disco"); }
    assert(stands(237)) by { reveal(place); reveal(stands); reveal_strlit("Classical music"); }
    assert(stands(238)) by { reveal(place); reveal(stands); reveal_strlit("Opera"); }
    assert(stands(239)) by { reveal(place); reveal(stands); reveal_strlit("Electronic music"); }
}

proof fn lemma_stands_from_240(i: int)
    requires
        240 <= i < 252,
    ensures
        stands(i),
{
    assert(stands(240)) by { reveal(place); reveal(stands); reveal_strlit("House music"); }
    assert(stands(241)) by { reveal(place); reveal(stands); reveal_strlit("Techno"); }
    assert(stands(242)) by { reveal(place); reveal(stands); reveal_strlit("Dubstep"); }
    assert(stands(243)) by { reveal(place); reveal(stands); reveal_strlit("Drum and bass"); }
    assert(stands(244)) by { reveal(place); reveal(stands); reveal_strlit("Electronica"); }
    assert(stands(245)) by { reveal(place); reveal(stands); reveal_strlit("Electronic dance music"); }
    assert(stands(246)) by { reveal(place); reveal(stands); reveal_strlit("Ambient music"); }
    assert(stands(247)) by { reveal(place); reveal(stands); reveal_strlit("Trance music"); }
    assert(stands(248)) by { reveal(place); reveal(stands); reveal_strlit("Music of Latin America"); }
    assert(stands(249)) by { reveal(place); reveal(stands); reveal_strlit("Salsa music"); }
    assert(stands(250)) by { reveal(place); reveal(stands); reveal_strlit("Flamenco"); }
    assert(stands(251)) by { reveal(place); reveal(stands); reveal_strlit("Blues"); }
}

proof fn lemma_stands_from_252(i: int)
    requires
        252 <= i < 264,
    ensures
        stands(i),
{
    assert(stands(252)) by { reveal(place); reveal(stands); reveal_strlit("Music for children"); }
    assert(stands(253)) by { reveal(place); reveal(stands); reveal_strlit("New-age music"); }
    assert(stands(254)) by { reveal(place); reveal(stands); reveal_strlit("Vocal music"); }
    assert(stands(255)) by { reveal(place); reveal(stands); reveal_strlit("A capella"); }
    assert(stands(256)) by { reveal(place); reveal(stands); reveal_strlit("Music of Africa"); }
    assert(stands(257)) by { reveal(place); reveal(stands); reveal_strlit("Afrobeat"); }
    assert(stands(258)) by { reveal(place); reveal(stands); reveal_strlit("Christian music"); }
    assert(stands(259)) by { reveal(place); reveal(stands); reveal_strlit("Gospel music"); }
    assert(stands(260)) by { reveal(place); reveal(stands); reveal_strlit("Music of Asia"); }
    assert(stands(261)) by { reveal(place); reveal(stands); reveal_strlit("Carnatic music"); }
    assert(stands(262)) by { reveal(place); reveal(stands); reveal_strlit("Music of Bollywood"); }
    assert(stands(263)) by { reveal(place); reveal(stands); reveal_strlit("Ska"); }
}

proof fn lemma_stands_from_264(i: int)
    requires
        264 <= i < 276,
    ensures
        stands(i),
{
    assert(stands(264)) by { reveal(place); reveal(stands); reveal_strlit("Traditional music"); }
    assert(stands(265)) by { reveal(place); reveal(stands); reveal_strlit("Independent music"); }
    assert(stands(266)) by { reveal(place); reveal(stands); reveal_strlit("Song"); }
    assert(stands(267)) by { reveal(place); reveal(stands); reveal_strlit("Background music"); }
    assert(stands(268)) by { reveal(place); reveal(stands); reveal_strlit("Theme music"); }
    assert(stands(269)) by { reveal(place); reveal(stands); reveal_strlit("Jingle (music)"); }
    assert(stands(270)) by { reveal(place); reveal(stands); reveal_strlit("Soundtrack music"); }
    assert(stands(271)) by { reveal(place); reveal(stands); reveal_strlit("Lullaby"); }
    assert(stands(272)) by { reveal(place); reveal(stands); reveal_strlit("Video game music"); }
    assert(stands(273)) by { reveal(place); reveal(stands); reveal_strlit("Christmas music"); }
    assert(stands(274)) by { reveal(place); reveal(stands); reveal_strlit("Dance music"); }
    assert(stands(275)) by { reveal(place); reveal(stands); reveal_strlit("Wedding music"); }
}

proof fn lemma_stands_from_276(i: int)
    requires
        276 <= i < 288,
    ensures
        stands(i),
{
    assert(stands(276)) by { reveal(place); reveal(stands); reveal_strlit("Happy music"); }
    assert(stands(277)) by { reveal(place); reveal(stands); reveal_strlit("Funny music"); }
    assert(stands(278)) by { reveal(place); reveal(stands); reveal_strlit("Sad music"); }
    assert(stands(279)) by { reveal(place); reveal(stands); reveal_strlit("Tender music"); }
    assert(stands(280)) by { reveal(place); reveal(stands); reveal_strlit("Exciting music"); }
    assert(stands(281)) by { reveal(place); reveal(stands); reveal_strlit("Angry music"); }
    assert(stands(282)) by { reveal(place); reveal(stands); reveal_strlit("Scary music"); }
    assert(stands(283)) by { reveal(place); reveal(stands); reveal_strlit("Wind"); }
    assert(stands(284)) by { reveal(place); reveal(stands); reveal_strlit("Rustling leaves"); }
    assert(stands(285)) by { reveal(place); reveal(stands); reveal_strlit("Wind noise (microphone)"); }
    assert(stands(286)) by { reveal(place); reveal(stands); reveal_strlit("Thunderstorm"); }
    assert(stands(287)) by { reveal(place); reveal(stands); reveal_strlit("Thunder"); }
}

proof fn lemma_stands_from_288(i: int)
    requires
        288 <= i < 300,
    ensures
        stands(i),
{
    assert(stands(288)) by { reveal(place); reveal(stands); reveal_strlit("Water"); }
    assert(stands(289)) by { reveal(place); reveal(stands); reveal_strlit("Rain"); }
    assert(stands(290)) by { reveal(place); reveal(stands); reveal_strlit("Raindrop"); }
    assert(stands(291)) by { reveal(place); reveal(stands); reveal_strlit("Rain on surface"); }
    assert(stands(292)) by { reveal(place); reveal(stands); reveal_strlit("Stream"); }
    assert(stands(293)) by { reveal(place); reveal(stands); reveal_strlit("Waterfall"); }
    assert(stands(294)) by { reveal(place); reveal(stands); reveal_strlit("Ocean"); }
    assert(stands(295)) by { reveal(place); reveal(stands); reveal_strlit("Waves, surf"); }
    assert(stands(296)) by { reveal(place); reveal(stands); reveal_strlit("Steam"); }
    assert(stands(297)) by { reveal(place); reveal(stands); reveal_strlit("Gurgling"); }
    assert(stands(298)) by { reveal(place); reveal(stands); reveal_strlit("Fire"); }
    assert(stands(299)) by { reveal(place); reveal(stands); reveal_strlit("Crackle"); }
}

proof fn lemma_stands_from_300(i: int)
    requires
        300 <= i < 312,
    ensures
        stands(i),
{
    assert(stands(300)) by { reveal(place); reveal(stands); reveal_strlit("Vehicle"); }
    assert(stands(301)) by { reveal(place); reveal(stands); reveal_strlit("Boat, Water vehicle"); }
    assert(stands(302)) by { reveal(place); reveal(stands); reveal_strlit("Sailboat, sailing ship"); }
    assert(stands(303)) by { reveal(place); reveal(stands); reveal_strlit("Rowboat, canoe, kayak"); }
    assert(stands(304)) by { reveal(place); reveal(stands); reveal_strlit("Motorboat, speedboat"); }
    assert(stands(305)) by { reveal(place); reveal(stands); reveal_strlit("Ship"); }
    assert(stands(306)) by { reveal(place); reveal(stands); reveal_strlit("Motor vehicle (road)"); }
    assert(stands(307)) by { reveal(place); reveal(stands); reveal_strlit("Car"); }
    assert(stands(308)) by { reveal(place); reveal(stands); reveal_strlit("Vehicle horn, car horn, honking"); }
    assert(stands(309)) by { reveal(place); reveal(stands); reveal_strlit("Toot"); }
    assert(stands(310)) by { reveal(place); reveal(stands); reveal_strlit("Car alarm"); }
    assert(stands(311)) by { reveal(place); reveal(stands); reveal_strlit("Power windows, electric windows"); }
}

proof fn lemma_stands_from_312(i: int)
    requires
        312 <= i < 324,
    ensures
        stands(i),
{
    assert(stands(312)) by { reveal(place); reveal(stands); reveal_strlit("Skidding"); }
    assert(stands(313)) by { reveal(place); reveal(stands); reveal_strlit("Tire squeal"); }
    assert(stands(314)) by { reveal(place); reveal(stands); reveal_strlit("Car passing by"); }
    assert(stands(315)) by { reveal(place); reveal(stands); reveal_strlit("Race car, auto racing"); }
    assert(stands(316)) by { reveal(place); reveal(stands); reveal_strlit("Truck"); }
    assert(stands(317)) by { reveal(place); reveal(stands); reveal_strlit("Air brake"); }
    assert(stands(318)) by { reveal(place); reveal(stands); reveal_strlit("Air horn, truck horn"); }
    assert(stands(319)) by { reveal(place); reveal(stands); reveal_strlit("Reversing beeps"); }
    assert(stands(320)) by { reveal(place); reveal(stands); reveal_strlit("Ice cream truck, ice cream van"); }
    assert(stands(321)) by { reveal(place); reveal(stands); reveal_strlit("Bus"); }
    assert(stands(322)) by { reveal(place); reveal(stands); reveal_strlit("Emergency vehicle"); }
    assert(stands(323)) by { reveal(place); reveal(stands); reveal_strlit("Police car (siren)"); }
}

proof fn lemma_stands_from_324(i: int)
    requires
        324 <= i < 336,
    ensures
        stands(i),
{
    assert(stands(324)) by { reveal(place); reveal(stands); reveal_strlit("Ambulance (siren)"); }
    assert(stands(325)) by { reveal(place); reveal(stands); reveal_strlit("Fire engine, fire truck (siren)"); }
    assert(stands(326)) by { reveal(place); reveal(stands); reveal_strlit("Motorcycle"); }
    assert(stands(327)) by { reveal(place); reveal(stands); reveal_strlit("Traffic noise, roadway noise"); }
    assert(stands(328)) by { reveal(place); reveal(stands); reveal_strlit("Rail transport"); }
    assert(stands(329)) by { reveal(place); reveal(stands); reveal_strlit("Train"); }
    assert(stands(330)) by { reveal(place); reveal(stands); reveal_strlit("Train whistle"); }
    assert(stands(331)) by { reveal(place); reveal(stands); reveal_strlit("Train horn"); }
    assert(stands(332)) by { reveal(place); reveal(stands); reveal_strlit("Railroad car, train wagon"); }
    assert(stands(333)) by { reveal(place); reveal(stands); reveal_strlit("Train wheels squealing"); }
    assert(stands(334)) by { reveal(place); reveal(stands); reveal_strlit("Subway, metro, underground"); }
    assert(stands(335)) by { reveal(place); reveal(stands); reveal_strlit("Aircraft"); }
}

proof fn lemma_stands_from_336(i: int)
    requires
        336 <= i < 348,
    ensures
        stands(i),
{
    assert(stands(336)) by { reveal(place); reveal(stands); reveal_strlit("Aircraft engine"); }
    assert(stands(337)) by { reveal(place); reveal(stands); reveal_strlit("Jet engine"); }
    assert(stands(338)) by { reveal(place); reveal(stands); reveal_strlit("Propeller, airscrew"); }
    assert(stands(339)) by { reveal(place); reveal(stands); reveal_strlit("Helicopter"); }
    assert(stands(340)) by { reveal(place); reveal(stands); reveal_strlit("Fixed-wing aircraft, airplane"); }
    assert(stands(341)) by { reveal(place); reveal(stands); reveal_strlit("Bicycle"); }
    assert(stands(342)) by { reveal(place); reveal(stands); reveal_strlit("Skateboard"); }
    assert(stands(343)) by { reveal(place); reveal(stands); reveal_strlit("Engine"); }
    assert(stands(344)) by { reveal(place); reveal(stands); reveal_strlit("Light engine (high frequency)"); }
    assert(stands(345)) by { reveal(place); reveal(stands); reveal_strlit("Dental drill, dentist's drill"); }
    assert(stands(346)) by { reveal(place); reveal(stands); reveal_strlit("Lawn mower"); }
    assert(stands(347)) by { reveal(place); reveal(stands); reveal_strlit("Chainsaw"); }
}

proof fn lemma_stands_from_348(i: int)
    requires
        348 <= i < 360,
    ensures
        stands(i),
{
    assert(stands(348)) by { reveal(place); reveal(stands); reveal_strlit("Medium engine (mid frequency)"); }
    assert(stands(349)) by { reveal(place); reveal(stands); reveal_strlit("Heavy engine (low frequency)"); }
    assert(stands(350)) by { reveal(place); reveal(stands); reveal_strlit("Engine knocking"); }
    assert(stands(351)) by { reveal(place); reveal(stands); reveal_strlit("Engine starting"); }
    assert(stands(352)) by { reveal(place); reveal(stands); reveal_strlit("Idling"); }
    assert(stands(353)) by { reveal(place); reveal(stands); reveal_strlit("Accelerating, revving, vroom"); }
    assert(stands(354)) by { reveal(place); reveal(stands); reveal_strlit("Door"); }
    assert(stands(355)) by { reveal(place); reveal(stands); reveal_strlit("Doorbell"); }
    assert(stands(356)) by { reveal(place); reveal(stands); reveal_strlit("Ding-dong"); }
    assert(stands(357)) by { reveal(place); reveal(stands); reveal_strlit("Sliding door"); }
    assert(stands(358)) by { reveal(place); reveal(stands); reveal_strlit("Slam"); }
    assert(stands(359)) by { reveal(place); reveal(stands); reveal_strlit("Knock"); }
}

proof fn lemma_stands_from_360(i: int)
    requires
        360 <= i < 372,
    ensures
        stands(i),
{
    assert(stands(360)) by { reveal(place); reveal(stands); reveal_strlit("Tap"); }
    assert(stands(361)) by { reveal(place); reveal(stands); reveal_strlit("Squeak"); }
    assert(stands(362)) by { reveal(place); reveal(stands); reveal_strlit("Cupboard open or close"); }
    assert(stands(363)) by { reveal(place); reveal(stands); reveal_strlit("Drawer open or close"); }
    assert(stands(364)) by { reveal(place); reveal(stands); reveal_strlit("Dishes, pots, and pans"); }
    assert(stands(365)) by { reveal(place); reveal(stands); reveal_strlit("Cutlery, silverware"); }
    assert(stands(366)) by { reveal(place); reveal(stands); reveal_strlit("Chopping (food)"); }
    assert(stands(367)) by { reveal(place); reveal(stands); reveal_strlit("Frying (food)"); }
    assert(stands(368)) by { reveal(place); reveal(stands); reveal_strlit("Microwave oven"); }
    assert(stands(369)) by { reveal(place); reveal(stands); reveal_strlit("Blender"); }
    assert(stands(370)) by { reveal(place); reveal(stands); reveal_strlit("Water tap, faucet"); }
    assert(stands(371)) by { reveal(place); reveal(stands); reveal_strlit("Sink (filling or washing)"); }
}

proof fn lemma_stands_from_372(i: int)
    requires
        372 <= i < 384,
    ensures
        stands(i),
{
    assert(stands(372)) by { reveal(place); reveal(stands); reveal_strlit("Bathtub (filling or washing)"); }
    assert(stands(373)) by { reveal(place); reveal(stands); reveal_strlit("Hair dryer"); }
    assert(stands(374)) by { reveal(place); reveal(stands); reveal_strlit("Toilet flush"); }
    assert(stands(375)) by { reveal(place); reveal(stands); reveal_strlit("Toothbrush"); }
    assert(stands(376)) by { reveal(place); reveal(stands); reveal_strlit("Electric toothbrush"); }
    assert(stands(377)) by { reveal(place); reveal(stands); reveal_strlit("Vacuum cleaner"); }
    assert(stands(378)) by { reveal(place); reveal(stands); reveal_strlit("Zipper (clothing)"); }
    assert(stands(379)) by { reveal(place); reveal(stands); reveal_strlit("Keys jangling"); }
    assert(stands(380)) by { reveal(place); reveal(stands); reveal_strlit("Coin (dropping)"); }
    assert(stands(381)) by { reveal(place); reveal(stands); reveal_strlit("Scissors"); }
    assert(stands(382)) by { reveal(place); reveal(stands); reveal_strlit("Electric shaver, electric razor"); }
    assert(stands(383)) by { reveal(place); reveal(stands); reveal_strlit("Shuffling cards"); }
}

proof fn lemma_stands_from_384(i: int)
    requires
        384 <= i < 396,
    ensures
        stands(i),
{
    assert(stands(384)) by { reveal(place); reveal(stands); reveal_strlit("Typing"); }
    assert(stands(385)) by { reveal(place); reveal(stands); reveal_strlit("Typewriter"); }
    assert(stands(386)) by { reveal(place); reveal(stands); reveal_strlit("Computer keyboard"); }
    assert(stands(387)) by { reveal(place); reveal(stands); reveal_strlit("Writing"); }
    assert(stands(388)) by { reveal(place); reveal(stands); reveal_strlit("Alarm"); }
    assert(stands(389)) by { reveal(place); reveal(stands); reveal_strlit("Telephone"); }
    assert(stands(390)) by { reveal(place); reveal(stands); reveal_strlit("Telephone bell ringing"); }
    assert(stands(391)) by { reveal(place); reveal(stands); reveal_strlit("Ringtone"); }
    assert(stands(392)) by { reveal(place); reveal(stands); reveal_strlit("Telephone dialing, DTMF"); }
    assert(stands(393)) by { reveal(place); reveal(stands); reveal_strlit("Dial tone"); }
    assert(stands(394)) by { reveal(place); reveal(stands); reveal_strlit("Busy signal"); }
    assert(stands(395)) by { reveal(place); reveal(stands); reveal_strlit("Alarm clock"); }
}

proof fn lemma_stands_from_396(i: int)
    requires
        396 <= i < 408,
    ensures
        stands(i),
{
    assert(stands(396)) by { reveal(place); reveal(stands); reveal_strlit("Siren"); }
    assert(stands(397)) by { reveal(place); reveal(stands); reveal_strlit("Civil defense siren"); }
    assert(stands(398)) by { reveal(place); reveal(stands); reveal_strlit("Buzzer"); }
    assert(stands(399)) by { reveal(place); reveal(stands); reveal_strlit("Smoke detector, smoke alarm"); }
    assert(stands(400)) by { reveal(place); reveal(stands); reveal_strlit("Fire alarm"); }
    assert(stands(401)) by { reveal(place); reveal(stands); reveal_strlit("Foghorn"); }
    assert(stands(402)) by { reveal(place); reveal(stands); reveal_strlit("Whistle"); }
    assert(stands(403)) by { reveal(place); reveal(stands); reveal_strlit("Steam whistle"); }
    assert(stands(404)) by { reveal(place); reveal(stands); reveal_strlit("Mechanisms"); }
    assert(stands(405)) by { reveal(place); reveal(stands); reveal_strlit("Ratchet, pawl"); }
    assert(stands(406)) by { reveal(place); reveal(stands); reveal_strlit("Clock"); }
    assert(stands(407)) by { reveal(place); reveal(stands); reveal_strlit("Tick"); }
}

proof fn lemma_stands_from_408(i: int)
    requires
        408 <= i < 420,
    ensures
        stands(i),
{
    assert(stands(408)) by { reveal(place); reveal(stands); reveal_strlit("Tick-tock"); }
    assert(stands(409)) by { reveal(place); reveal(stands); reveal_strlit("Gears"); }
    assert(stands(410)) by { reveal(place); reveal(stands); reveal_strlit("Pulleys"); }
    assert(stands(411)) by { reveal(place); reveal(stands); reveal_strlit("Sewing machine"); }
    assert(stands(412)) by { reveal(place); reveal(stands); reveal_strlit("Mechanical fan"); }
    assert(stands(413)) by { reveal(place); reveal(stands); reveal_strlit("Air conditioning"); }
    assert(stands(414)) by { reveal(place); reveal(stands); reveal_strlit("Cash register"); }
    assert(stands(415)) by { reveal(place); reveal(stands); reveal_strlit("Printer"); }
    assert(stands(416)) by { reveal(place); reveal(stands); reveal_strlit("Camera"); }
    assert(stands(417)) by { reveal(place); reveal(stands); reveal_strlit("Single-lens reflex camera"); }
    assert(stands(418)) by { reveal(place); reveal(stands); reveal_strlit("Tools"); }
    assert(stands(419)) by { reveal(place); reveal(stands); reveal_strlit("Hammer"); }
}

proof fn lemma_stands_from_420(i: int)
    requires
        420 <= i < 432,
    ensures
        stands(i),
{
    assert(stands(420)) by { reveal(place); reveal(stands); reveal_strlit("Jackhammer"); }
    assert(stands(421)) by { reveal(place); reveal(stands); reveal_strlit("Sawing"); }
    assert(stands(422)) by { reveal(place); reveal(stands); reveal_strlit("Filing (rasp)"); }
    assert(stands(423)) by { reveal(place); reveal(stands); reveal_strlit("Sanding"); }
    assert(stands(424)) by { reveal(place); reveal(stands); reveal_strlit("Power tool"); }
    assert(stands(425)) by { reveal(place); reveal(stands); reveal_strlit("Drill"); }
    assert(stands(426)) by { reveal(place); reveal(stands); reveal_strlit("Explosion"); }
    assert(stands(427)) by { reveal(place); reveal(stands); reveal_strlit("Gunshot, gunfire"); }
    assert(stands(428)) by { reveal(place); reveal(stands); reveal_strlit("Machine gun"); }
    assert(stands(429)) by { reveal(place); reveal(stands); reveal_strlit("Fusillade"); }
    assert(stands(430)) by { reveal(place); reveal(stands); reveal_strlit("Artillery fire"); }
    assert(stands(431)) by { reveal(place); reveal(stands); reveal_strlit("Cap gun"); }
}

proof fn lemma_stands_from_432(i: int)
    requires
        432 <= i < 444,
    ensures
        stands(i),
{
    assert(stands(432)) by { reveal(place); reveal(stands); reveal_strlit("Fireworks"); }
    assert(stands(433)) by { reveal(place); reveal(stands); reveal_strlit("Firecracker"); }
    assert(stands(434)) by { reveal(place); reveal(stands); reveal_strlit("Burst, pop"); }
    assert(stands(435)) by { reveal(place); reveal(stands); reveal_strlit("Eruption"); }
    assert(stands(436)) by { reveal(place); reveal(stands); reveal_strlit("Boom"); }
    assert(stands(437)) by { reveal(place); reveal(stands); reveal_strlit("Wood"); }
    assert(stands(438)) by { reveal(place); reveal(stands); reveal_strlit("Chop"); }
    assert(stands(439)) by { reveal(place); reveal(stands); reveal_strlit("Splinter"); }
    assert(stands(440)) by { reveal(place); reveal(stands); reveal_strlit("Crack"); }
    assert(stands(441)) by { reveal(place); reveal(stands); reveal_strlit("Glass"); }
    assert(stands(442)) by { reveal(place); reveal(stands); reveal_strlit("Chink, clink"); }
    assert(stands(443)) by { reveal(place); reveal(stands); reveal_strlit("Shatter"); }
}

proof fn lemma_stands_from_444(i: int)
    requires
        444 <= i < 456,
    ensures
        stands(i),
{
    assert(stands(444)) by { reveal(place); reveal(stands); reveal_strlit("Liquid"); }
    assert(stands(445)) by { reveal(place); reveal(stands); reveal_strlit("Splash, splatter"); }
    assert(stands(446)) by { reveal(place); reveal(stands); reveal_strlit("Slosh"); }
    assert(stands(447)) by { reveal(place); reveal(stands); reveal_strlit("Squish"); }
    assert(stands(448)) by { reveal(place); reveal(stands); reveal_strlit("Drip"); }
    assert(stands(449)) by { reveal(place); reveal(stands); reveal_strlit("Pour"); }
    assert(stands(450)) by { reveal(place); reveal(stands); reveal_strlit("Trickle, dribble"); }
    assert(stands(451)) by { reveal(place); reveal(stands); reveal_strlit("Gush"); }
    assert(stands(452)) by { reveal(place); reveal(stands); reveal_strlit("Fill (with liquid)"); }
    assert(stands(453)) by { reveal(place); reveal(stands); reveal_strlit("Spray"); }
    assert(stands(454)) by { reveal(place); reveal(stands); reveal_strlit("Pump (liquid)"); }
    assert(stands(455)) by { reveal(place); reveal(stands); reveal_strlit("Stir"); }
}

proof fn lemma_stands_from_456(i: int)
    requires
        456 <= i < 468,
    ensures
        stands(i),
{
    assert(stands(456)) by { reveal(place); reveal(stands); reveal_strlit("Boiling"); }
    assert(stands(457)) by { reveal(place); reveal(stands); reveal_strlit("Sonar"); }
    assert(stands(458)) by { reveal(place); reveal(stands); reveal_strlit("Arrow"); }
    assert(stands(459)) by { reveal(place); reveal(stands); reveal_strlit("Whoosh, swoosh, swish"); }
    assert(stands(460)) by { reveal(place); reveal(stands); reveal_strlit("Thump, thud"); }
    assert(stands(461)) by { reveal(place); reveal(stands); reveal_strlit("Thunk"); }
    assert(stands(462)) by { reveal(place); reveal(stands); reveal_strlit("Electronic tuner"); }
    assert(stands(463)) by { reveal(place); reveal(stands); reveal_strlit("Effects unit"); }
    assert(stands(464)) by { reveal(place); reveal(stands); reveal_strlit("Chorus effect"); }
    assert(stands(465)) by { reveal(place); reveal(stands); reveal_strlit("Basketball bounce"); }
    assert(stands(466)) by { reveal(place); reveal(stands); reveal_strlit("Bang"); }
    assert(stands(467)) by { reveal(place); reveal(stands); reveal_strlit("Slap, smack"); }
}

proof fn lemma_stands_from_468(i: int)
    requires
        468 <= i < 480,
    ensures
        stands(i),
{
    assert(stands(468)) by { reveal(place); reveal(stands); reveal_strlit("Whack, thwack"); }
    assert(stands(469)) by { reveal(place); reveal(stands); reveal_strlit("Smash, crash"); }
    assert(stands(470)) by { reveal(place); reveal(stands); reveal_strlit("Breaking"); }
    assert(stands(471)) by { reveal(place); reveal(stands); reveal_strlit("Bouncing"); }
    assert(stands(472)) by { reveal(place); reveal(stands); reveal_strlit("Whip"); }
    assert(stands(473)) by { reveal(place); reveal(stands); reveal_strlit("Flap"); }
    assert(stands(474)) by { reveal(place); reveal(stands); reveal_strlit("Scratch"); }
    assert(stands(475)) by { reveal(place); reveal(stands); reveal_strlit("Scrape"); }
    assert(stands(476)) by { reveal(place); reveal(stands); reveal_strlit("Rub"); }
    assert(stands(477)) by { reveal(place); reveal(stands); reveal_strlit("Roll"); }
    assert(stands(478)) by { reveal(place); reveal(stands); reveal_strlit("Crushing"); }
    assert(stands(479)) by { reveal(place); reveal(stands); reveal_strlit("Crumpling, crinkling"); }
}

proof fn lemma_stands_from_480(i: int)
    requires
        480 <= i < 492,
    ensures
        stands(i),
{
    assert(stands(480)) by { reveal(place); reveal(stands); reveal_strlit("Tearing"); }
    assert(stands(481)) by { reveal(place); reveal(stands); reveal_strlit("Beep, bleep"); }
    assert(stands(482)) by { reveal(place); reveal(stands); reveal_strlit("Ping"); }
    assert(stands(483)) by { reveal(place); reveal(stands); reveal_strlit("Ding"); }
    assert(stands(484)) by { reveal(place); reveal(stands); reveal_strlit("Clang"); }
    assert(stands(485)) by { reveal(place); reveal(stands); reveal_strlit("Squeal"); }
    assert(stands(486)) by { reveal(place); reveal(stands); reveal_strlit("Creak"); }
    assert(stands(487)) by { reveal(place); reveal(stands); reveal_strlit("Rustle"); }
    assert(stands(488)) by { reveal(place); reveal(stands); reveal_strlit("Whir"); }
    assert(stands(489)) by { reveal(place); reveal(stands); reveal_strlit("Clatter"); }
    assert(stands(490)) by { reveal(place); reveal(stands); reveal_strlit("Sizzle"); }
    assert(stands(491)) by { reveal(place); reveal(stands); reveal_strlit("Clicking"); }
}

proof fn lemma_stands_from_492(i: int)
    requires
        492 <= i < 504,
    ensures
        stands(i),
{
    assert(stands(492)) by { reveal(place); reveal(stands); reveal_strlit("Clickety-clack"); }
    assert(stands(493)) by { reveal(place); reveal(stands); reveal_strlit("Rumble"); }
    assert(stands(494)) by { reveal(place); reveal(stands); reveal_strlit("Plop"); }
    assert(stands(495)) by { reveal(place); reveal(stands); reveal_strlit("Jingle, tinkle"); }
    assert(stands(496)) by { reveal(place); reveal(stands); reveal_strlit("Hum"); }
    assert(stands(497)) by { reveal(place); reveal(stands); reveal_strlit("Zing"); }
    assert(stands(498)) by { reveal(place); reveal(stands); reveal_strlit("Boing"); }
    assert(stands(499)) by { reveal(place); reveal(stands); reveal_strlit("Crunch"); }
    assert(stands(500)) by { reveal(place); reveal(stands); reveal_strlit("Silence"); }
    assert(stands(501)) by { reveal(place); reveal(stands); reveal_strlit("Sine wave"); }
    assert(stands(502)) by { reveal(place); reveal(stands); reveal_strlit("Harmonic"); }
    assert(stands(503)) by { reveal(place); reveal(stands); reveal_strlit("Chirp tone"); }
}

proof fn lemma_stands_from_504(i: int)
    requires
        504 <= i < 516,
    ensures
        stands(i),
{
    assert(stands(504)) by { reveal(place); reveal(stands); reveal_strlit("Sound effect"); }
    assert(stands(505)) by { reveal(place); reveal(stands); reveal_strlit("Pulse"); }
    assert(stands(506)) by { reveal(place); reveal(stands); reveal_strlit("Inside, small room"); }
    assert(stands(507)) by { reveal(place); reveal(stands); reveal_strlit("Inside, large room or hall"); }
    assert(stands(508)) by { reveal(place); reveal(stands); reveal_strlit("Inside, public space"); }
    assert(stands(509)) by { reveal(place); reveal(stands); reveal_strlit("Outside, urban or manmade"); }
    assert(stands(510)) by { reveal(place); reveal(stands); reveal_strlit("Outside, rural or natural"); }
    assert(stands(511)) by { reveal(place); reveal(stands); reveal_strlit("Reverberation"); }
    assert(stands(512)) by { reveal(place); reveal(stands); reveal_strlit("Echo"); }
    assert(stands(513)) by { reveal(place); reveal(stands); reveal_strlit("Noise"); }
    assert(stands(514)) by { reveal(place); reveal(stands); reveal_strlit("Environmental noise"); }
    assert(stands(515)) by { reveal(place); reveal(stands); reveal_strlit("Static"); }
}

proof fn lemma_stands_from_516(i: int)
    requires
        516 <= i < 527,
    ensures
        stands(i),
{
    assert(stands(516)) by { reveal(place); reveal(stands); reveal_strlit("Mains hum"); }
    assert(stands(517)) by { reveal(place); reveal(stands); reveal_strlit("Distortion"); }
    assert(stands(518)) by { reveal(place); reveal(stands); reveal_strlit("Sidetone"); }
    assert(stands(519)) by { reveal(place); reveal(stands); reveal_strlit("Cacophony"); }
    assert(stands(520)) by { reveal(place); reveal(stands); reveal_strlit("White noise"); }
    assert(stands(521)) by { reveal(place); reveal(stands); reveal_strlit("Pink noise"); }
    assert(stands(522)) by { reveal(place); reveal(stands); reveal_strlit("Throbbing"); }
    assert(stands(523)) by { reveal(place); reveal(stands); reveal_strlit("Vibration"); }
    assert(stands(524)) by { reveal(place); reveal(stands); reveal_strlit("Television"); }
    assert(stands(525)) by { reveal(place); reveal(stands); reveal_strlit("Radio"); }
    assert(stands(526)) by { reveal(place); reveal(stands); reveal_strlit("Field recording"); }
}

/// No two classes have one name, so a name tells which class it is.
pub proof fn law_no_two_classes_share_a_name(i: int, j: int)
    requires
        0 <= i < COUNT,
        0 <= j < COUNT,
    ensures
        LABELS@[i]@ == LABELS@[j]@ <==> i == j,
{
    lemma_stands(i);
    lemma_stands(j);
    reveal(stands);
}

proof fn lemma_stands(i: int)
    requires
        0 <= i < COUNT,
    ensures
        stands(i),
{
    if i < 12 {
        lemma_stands_from_0(i);
    } else if i < 24 {
        lemma_stands_from_12(i);
    } else if i < 36 {
        lemma_stands_from_24(i);
    } else if i < 48 {
        lemma_stands_from_36(i);
    } else if i < 60 {
        lemma_stands_from_48(i);
    } else if i < 72 {
        lemma_stands_from_60(i);
    } else if i < 84 {
        lemma_stands_from_72(i);
    } else if i < 96 {
        lemma_stands_from_84(i);
    } else if i < 108 {
        lemma_stands_from_96(i);
    } else if i < 120 {
        lemma_stands_from_108(i);
    } else if i < 132 {
        lemma_stands_from_120(i);
    } else if i < 144 {
        lemma_stands_from_132(i);
    } else if i < 156 {
        lemma_stands_from_144(i);
    } else if i < 168 {
        lemma_stands_from_156(i);
    } else if i < 180 {
        lemma_stands_from_168(i);
    } else if i < 192 {
        lemma_stands_from_180(i);
    } else if i < 204 {
        lemma_stands_from_192(i);
    } else if i < 216 {
        lemma_stands_from_204(i);
    } else if i < 228 {
        lemma_stands_from_216(i);
    } else if i < 240 {
        lemma_stands_from_228(i);
    } else if i < 252 {
        lemma_stands_from_240(i);
    } else if i < 264 {
        lemma_stands_from_252(i);
    } else if i < 276 {
        lemma_stands_from_264(i);
    } else if i < 288 {
        lemma_stands_from_276(i);
    } else if i < 300 {
        lemma_stands_from_288(i);
    } else if i < 312 {
        lemma_stands_from_300(i);
    } else if i < 324 {
        lemma_stands_from_312(i);
    } else if i < 336 {
        lemma_stands_from_324(i);
    } else if i < 348 {
        lemma_stands_from_336(i);
    } else if i < 360 {
        lemma_stands_from_348(i);
    } else if i < 372 {
        lemma_stands_from_360(i);
    } else if i < 384 {
        lemma_stands_from_372(i);
    } else if i < 396 {
        lemma_stands_from_384(i);
    } else if i < 408 {
        lemma_stands_from_396(i);
    } else if i < 420 {
        lemma_stands_from_408(i);
    } else if i < 432 {
        lemma_stands_from_420(i);
    } else if i < 444 {
        lemma_stands_from_432(i);
    } else if i < 456 {
        lemma_stands_from_444(i);
    } else if i < 468 {
        lemma_stands_from_456(i);
    } else if i < 480 {
        lemma_stands_from_468(i);
    } else if i < 492 {
        lemma_stands_from_480(i);
    } else if i < 504 {
        lemma_stands_from_492(i);
    } else if i < 516 {
        lemma_stands_from_504(i);
    } else {
        lemma_stands_from_516(i);
    }
}

} // verus!
