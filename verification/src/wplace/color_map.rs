use vstd::prelude::*;

verus! {

/// Square of the difference of two channel values.
pub open spec fn channel_sq(a: u8, b: u8) -> int {
    (a - b) * (a - b)
}

/// Squared Euclidean distance of two RGB colors.
pub open spec fn spec_color_distance(c1: (u8, u8, u8), c2: (u8, u8, u8)) -> int {
    channel_sq(c1.0, c2.0) + channel_sq(c1.1, c2.1) + channel_sq(c1.2, c2.2)
}

fn channel_distance(a: u8, b: u8) -> (r: u32)
    ensures
        r == channel_sq(a, b),
        r <= 65025,
{
    let d: i32 = a as i32 - b as i32;
    assert(d * d <= 65025 && d * d >= 0) by (nonlinear_arith)
        requires
            -255 <= d <= 255,
    ;
    (d * d) as u32
}

/// Squared Euclidean distance between two RGB colors.
pub fn color_distance(c1: (u8, u8, u8), c2: (u8, u8, u8)) -> (r: u32)
    ensures
        r == spec_color_distance(c1, c2),
{
    channel_distance(c1.0, c2.0) + channel_distance(c1.1, c2.1) + channel_distance(c1.2, c2.2)
}

/// The wplace palette, in id order (ids 1 to 31 are the free colors, 32 to
/// 63 the paid ones): name and RGB value.
pub open spec fn palette() -> Seq<(&'static str, (u8, u8, u8))> {
    seq![
        // free colors
        ("Black", (0u8, 0u8, 0u8)),
        ("Dark Gray", (60u8, 60u8, 60u8)),
        ("Gray", (120u8, 120u8, 120u8)),
        ("Light Gray", (210u8, 210u8, 210u8)),
        ("White", (255u8, 255u8, 255u8)),
        ("Deep Red", (96u8, 0u8, 24u8)),
        ("Red", (237u8, 28u8, 36u8)),
        ("Orange", (255u8, 127u8, 39u8)),
        ("Gold", (246u8, 170u8, 9u8)),
        ("Yellow", (249u8, 221u8, 59u8)),
        ("Light Yellow", (255u8, 250u8, 188u8)),
        ("Dark Green", (14u8, 185u8, 104u8)),
        ("Green", (19u8, 230u8, 123u8)),
        ("Light Green", (135u8, 255u8, 94u8)),
        ("Dark Teal", (12u8, 129u8, 110u8)),
        ("Teal", (16u8, 174u8, 166u8)),
        ("Light Teal", (19u8, 225u8, 190u8)),
        ("Dark Blue", (40u8, 80u8, 158u8)),
        ("Blue", (64u8, 147u8, 228u8)),
        ("Cyan", (96u8, 247u8, 242u8)),
        ("Indigo", (107u8, 80u8, 246u8)),
        ("Light Indigo", (153u8, 177u8, 251u8)),
        ("Dark Purple", (120u8, 12u8, 153u8)),
        ("Purple", (170u8, 56u8, 185u8)),
        ("Light Purple", (224u8, 159u8, 249u8)),
        ("Dark Pink", (203u8, 0u8, 122u8)),
        ("Pink", (236u8, 31u8, 128u8)),
        ("Light Pink", (243u8, 141u8, 169u8)),
        ("Dark Brown", (104u8, 70u8, 52u8)),
        ("Brown", (149u8, 104u8, 42u8)),
        ("Beige", (248u8, 178u8, 119u8)),
        // paid colors
        ("Medium Gray", (170u8, 170u8, 170u8)),
        ("Dark Red", (165u8, 14u8, 30u8)),
        ("Light Red", (250u8, 128u8, 114u8)),
        ("Dark Orange", (228u8, 92u8, 26u8)),
        ("Light Tan", (214u8, 181u8, 148u8)),
        ("Dark Goldenrod", (156u8, 132u8, 49u8)),
        ("Goldenrod", (197u8, 173u8, 49u8)),
        ("Light Goldenrod", (232u8, 212u8, 95u8)),
        ("Dark Olive", (74u8, 107u8, 58u8)),
        ("Olive", (90u8, 148u8, 74u8)),
        ("Light Olive", (132u8, 197u8, 115u8)),
        ("Dark Cyan", (15u8, 121u8, 159u8)),
        ("Light Cyan", (187u8, 250u8, 242u8)),
        ("Light Blue", (125u8, 199u8, 255u8)),
        ("Dark Indigo", (77u8, 49u8, 184u8)),
        ("Dark Slate Blue", (74u8, 66u8, 132u8)),
        ("Slate Blue", (122u8, 113u8, 196u8)),
        ("Light Slate Blue", (181u8, 174u8, 241u8)),
        ("Light Brown", (219u8, 164u8, 99u8)),
        ("Dark Beige", (209u8, 128u8, 81u8)),
        ("Light Beige", (255u8, 197u8, 165u8)),
        ("Dark Peach", (155u8, 82u8, 73u8)),
        ("Peach", (209u8, 128u8, 120u8)),
        ("Light Peach", (250u8, 182u8, 164u8)),
        ("Dark Tan", (123u8, 99u8, 82u8)),
        ("Tan", (156u8, 132u8, 107u8)),
        ("Dark Slate", (51u8, 57u8, 65u8)),
        ("Slate", (109u8, 117u8, 141u8)),
        ("Light Slate", (179u8, 185u8, 209u8)),
        ("Dark Stone", (109u8, 100u8, 63u8)),
        ("Stone", (148u8, 140u8, 107u8)),
        ("Light Stone", (205u8, 197u8, 158u8)),
    ]
}

/// The wplace palette as a vector; see `palette`.
pub fn colors_map_vec() -> (v: Vec<(&'static str, (u8, u8, u8))>)
    ensures
        v@ == palette(),
{
    let mut v: Vec<(&'static str, (u8, u8, u8))> = Vec::new();
    // free colors
    v.push(("Black", (0, 0, 0)));
    v.push(("Dark Gray", (60, 60, 60)));
    v.push(("Gray", (120, 120, 120)));
    v.push(("Light Gray", (210, 210, 210)));
    v.push(("White", (255, 255, 255)));
    v.push(("Deep Red", (96, 0, 24)));
    v.push(("Red", (237, 28, 36)));
    v.push(("Orange", (255, 127, 39)));
    v.push(("Gold", (246, 170, 9)));
    v.push(("Yellow", (249, 221, 59)));
    v.push(("Light Yellow", (255, 250, 188)));
    v.push(("Dark Green", (14, 185, 104)));
    v.push(("Green", (19, 230, 123)));
    v.push(("Light Green", (135, 255, 94)));
    v.push(("Dark Teal", (12, 129, 110)));
    v.push(("Teal", (16, 174, 166)));
    v.push(("Light Teal", (19, 225, 190)));
    v.push(("Dark Blue", (40, 80, 158)));
    v.push(("Blue", (64, 147, 228)));
    v.push(("Cyan", (96, 247, 242)));
    v.push(("Indigo", (107, 80, 246)));
    v.push(("Light Indigo", (153, 177, 251)));
    v.push(("Dark Purple", (120, 12, 153)));
    v.push(("Purple", (170, 56, 185)));
    v.push(("Light Purple", (224, 159, 249)));
    v.push(("Dark Pink", (203, 0, 122)));
    v.push(("Pink", (236, 31, 128)));
    v.push(("Light Pink", (243, 141, 169)));
    v.push(("Dark Brown", (104, 70, 52)));
    v.push(("Brown", (149, 104, 42)));
    v.push(("Beige", (248, 178, 119)));
    // paid colors
    v.push(("Medium Gray", (170, 170, 170)));
    v.push(("Dark Red", (165, 14, 30)));
    v.push(("Light Red", (250, 128, 114)));
    v.push(("Dark Orange", (228, 92, 26)));
    v.push(("Light Tan", (214, 181, 148)));
    v.push(("Dark Goldenrod", (156, 132, 49)));
    v.push(("Goldenrod", (197, 173, 49)));
    v.push(("Light Goldenrod", (232, 212, 95)));
    v.push(("Dark Olive", (74, 107, 58)));
    v.push(("Olive", (90, 148, 74)));
    v.push(("Light Olive", (132, 197, 115)));
    v.push(("Dark Cyan", (15, 121, 159)));
    v.push(("Light Cyan", (187, 250, 242)));
    v.push(("Light Blue", (125, 199, 255)));
    v.push(("Dark Indigo", (77, 49, 184)));
    v.push(("Dark Slate Blue", (74, 66, 132)));
    v.push(("Slate Blue", (122, 113, 196)));
    v.push(("Light Slate Blue", (181, 174, 241)));
    v.push(("Light Brown", (219, 164, 99)));
    v.push(("Dark Beige", (209, 128, 81)));
    v.push(("Light Beige", (255, 197, 165)));
    v.push(("Dark Peach", (155, 82, 73)));
    v.push(("Peach", (209, 128, 120)));
    v.push(("Light Peach", (250, 182, 164)));
    v.push(("Dark Tan", (123, 99, 82)));
    v.push(("Tan", (156, 132, 107)));
    v.push(("Dark Slate", (51, 57, 65)));
    v.push(("Slate", (109, 117, 141)));
    v.push(("Light Slate", (179, 185, 209)));
    v.push(("Dark Stone", (109, 100, 63)));
    v.push(("Stone", (148, 140, 107)));
    v.push(("Light Stone", (205, 197, 158)));
    assert(v@ =~= palette());
    v
}

/// The position of a palette name in the palette, read off a few of its
/// characters.
spec fn name_number(s: Seq<char>) -> int {
    if s[0] == 'B' {
        if s[2] == 'a' {
            0
        } else if s[2] == 'u' {
            18
        } else if s[2] == 'o' {
            29
        } else {
            30
        }
    } else if s[0] == 'D' {
        if s[6] == 'r' {
            if s[8] == 'y' {
                1
            } else if s[8] == 'e' {
                11
            } else if s[8] == 'w' {
                28
            } else {
                34
            }
        } else if s[6] == 'e' {
            if s[5] == 'R' {
                if s[1] == 'e' {
                    5
                } else {
                    32
                }
            } else if s[5] == 'T' {
                14
            } else if s[5] == 'B' {
                50
            } else {
                52
            }
        } else if s[6] == 'l' {
            if s.len() == 9 {
                17
            } else if s.len() == 10 {
                if s[5] == 'O' {
                    39
                } else {
                    57
                }
            } else {
                46
            }
        } else if s[6] == 'u' {
            22
        } else if s[6] == 'i' {
            25
        } else if s[6] == 'o' {
            36
        } else if s[6] == 'y' {
            42
        } else if s[6] == 'n' {
            45
        } else if s[6] == 'a' {
            55
        } else {
            60
        }
    } else if s[0] == 'G' {
        if s.len() == 4 {
            if s[1] == 'r' {
                2
            } else {
                8
            }
        } else if s.len() == 5 {
            12
        } else {
            37
        }
    } else if s[0] == 'L' {
        if s[6] == 'G' {
            if s.len() == 10 {
                3
            } else if s.len() == 11 {
                13
            } else {
                38
            }
        } else if s[6] == 'Y' {
            10
        } else if s[6] == 'T' {
            if s.len() == 10 {
                16
            } else {
                35
            }
        } else if s[6] == 'I' {
            21
        } else if s[6] == 'P' {
            if s.len() == 12 {
                24
            } else if s.len() == 10 {
                27
            } else {
                54
            }
        } else if s[6] == 'R' {
            33
        } else if s[6] == 'O' {
            41
        } else if s[6] == 'C' {
            43
        } else if s[6] == 'B' {
            if s[7] == 'l' {
                44
            } else if s[7] == 'r' {
                49
            } else {
                51
            }
        } else {
            if s.len() == 16 {
                48
            } else {
                if s[7] == 'l' {
                    59
                } else {
                    62
                }
            }
        }
    } else if s[0] == 'W' {
        4
    } else if s[0] == 'R' {
        6
    } else if s[0] == 'O' {
        if s.len() == 6 {
            7
        } else {
            40
        }
    } else if s[0] == 'Y' {
        9
    } else if s[0] == 'T' {
        if s.len() == 4 {
            15
        } else {
            56
        }
    } else if s[0] == 'C' {
        19
    } else if s[0] == 'I' {
        20
    } else if s[0] == 'P' {
        if s.len() == 6 {
            23
        } else if s.len() == 4 {
            26
        } else {
            53
        }
    } else if s[0] == 'M' {
        31
    } else {
        if s.len() == 10 {
            47
        } else {
            if s[1] == 'l' {
                58
            } else {
                61
            }
        }
    }
}

/// No two palette colors share a name.
pub proof fn lemma_palette_names_distinct()
    ensures
        forall|i: int, j: int| 0 <= i < j < palette().len() ==> (#[trigger] palette()[i]).0@ != (#[trigger] palette()[j]).0@,
{
    reveal_strlit("Black");
    reveal_strlit("Dark Gray");
    reveal_strlit("Gray");
    reveal_strlit("Light Gray");
    reveal_strlit("White");
    reveal_strlit("Deep Red");
    reveal_strlit("Red");
    reveal_strlit("Orange");
    reveal_strlit("Gold");
    reveal_strlit("Yellow");
    reveal_strlit("Light Yellow");
    reveal_strlit("Dark Green");
    reveal_strlit("Green");
    reveal_strlit("Light Green");
    reveal_strlit("Dark Teal");
    reveal_strlit("Teal");
    reveal_strlit("Light Teal");
    reveal_strlit("Dark Blue");
    reveal_strlit("Blue");
    reveal_strlit("Cyan");
    reveal_strlit("Indigo");
    reveal_strlit("Light Indigo");
    reveal_strlit("Dark Purple");
    reveal_strlit("Purple");
    reveal_strlit("Light Purple");
    reveal_strlit("Dark Pink");
    reveal_strlit("Pink");
    reveal_strlit("Light Pink");
    reveal_strlit("Dark Brown");
    reveal_strlit("Brown");
    reveal_strlit("Beige");
    reveal_strlit("Medium Gray");
    reveal_strlit("Dark Red");
    reveal_strlit("Light Red");
    reveal_strlit("Dark Orange");
    reveal_strlit("Light Tan");
    reveal_strlit("Dark Goldenrod");
    reveal_strlit("Goldenrod");
    reveal_strlit("Light Goldenrod");
    reveal_strlit("Dark Olive");
    reveal_strlit("Olive");
    reveal_strlit("Light Olive");
    reveal_strlit("Dark Cyan");
    reveal_strlit("Light Cyan");
    reveal_strlit("Light Blue");
    reveal_strlit("Dark Indigo");
    reveal_strlit("Dark Slate Blue");
    reveal_strlit("Slate Blue");
    reveal_strlit("Light Slate Blue");
    reveal_strlit("Light Brown");
    reveal_strlit("Dark Beige");
    reveal_strlit("Light Beige");
    reveal_strlit("Dark Peach");
    reveal_strlit("Peach");
    reveal_strlit("Light Peach");
    reveal_strlit("Dark Tan");
    reveal_strlit("Tan");
    reveal_strlit("Dark Slate");
    reveal_strlit("Slate");
    reveal_strlit("Light Slate");
    reveal_strlit("Dark Stone");
    reveal_strlit("Stone");
    reveal_strlit("Light Stone");
    assert forall|i: int| 0 <= i < palette().len() implies name_number((#[trigger] palette()[i]).0@) == i by {}
}

/// Entry `i` of `pal` is nearest to `rgb`: no entry is nearer, and every
/// earlier entry is farther.
pub open spec fn is_nearest(pal: Seq<(&'static str, (u8, u8, u8))>, rgb: (u8, u8, u8), i: int) -> bool {
    &&& 0 <= i < pal.len()
    &&& forall|j: int| 0 <= j < pal.len() ==> spec_color_distance(rgb, pal[i].1) <= spec_color_distance(rgb, #[trigger] pal[j].1)
    &&& forall|j: int| 0 <= j < i ==> spec_color_distance(rgb, #[trigger] pal[j].1) > spec_color_distance(rgb, pal[i].1)
}

/// Two colors are at distance zero exactly when they are equal.
pub proof fn lemma_distance_zero(c1: (u8, u8, u8), c2: (u8, u8, u8))
    ensures
        spec_color_distance(c1, c2) >= 0,
        spec_color_distance(c1, c2) == 0 <==> c1 == c2,
{
    assert(channel_sq(c1.0, c2.0) >= 0 && (channel_sq(c1.0, c2.0) == 0 <==> c1.0 == c2.0)) by (nonlinear_arith);
    assert(channel_sq(c1.1, c2.1) >= 0 && (channel_sq(c1.1, c2.1) == 0 <==> c1.1 == c2.1)) by (nonlinear_arith);
    assert(channel_sq(c1.2, c2.2) >= 0 && (channel_sq(c1.2, c2.2) == 0 <==> c1.2 == c2.2)) by (nonlinear_arith);
}

/// The nearest entry is unique, and it is an entry equal to `rgb` when
/// there is one.
pub proof fn lemma_nearest_unique(pal: Seq<(&'static str, (u8, u8, u8))>, rgb: (u8, u8, u8), i: int, k: int)
    requires
        is_nearest(pal, rgb, i),
    ensures
        is_nearest(pal, rgb, k) ==> i == k,
        (0 <= k < pal.len() && pal[k].1 == rgb) ==> pal[i].1 == rgb,
{
    if 0 <= k < pal.len() && pal[k].1 == rgb {
        lemma_distance_zero(rgb, pal[k].1);
        lemma_distance_zero(rgb, pal[i].1);
        assert(spec_color_distance(rgb, pal[i].1) <= spec_color_distance(rgb, pal[k].1));
    }
    if is_nearest(pal, rgb, k) {
        if i < k {
            assert(spec_color_distance(rgb, pal[i].1) > spec_color_distance(rgb, pal[k].1));
        } else if k < i {
            assert(spec_color_distance(rgb, pal[k].1) > spec_color_distance(rgb, pal[i].1));
        }
    }
}

/// Index of the palette entry nearest to `rgb` (the first of equally near
/// ones).
pub fn find_color_index(pal: &Vec<(&'static str, (u8, u8, u8))>, rgb: (u8, u8, u8)) -> (i: usize)
    requires
        pal@.len() > 0,
    ensures
        is_nearest(pal@, rgb, i as int),
{
    let n = pal.len();
    let mut best: usize = 0;
    let mut best_dist: u32 = color_distance(rgb, pal[0].1);
    let mut j: usize = 1;
    while j < n
        invariant
            n == pal@.len(),
            1 <= j <= n,
            best < j,
            best_dist == spec_color_distance(rgb, pal@[best as int].1),
            forall|k: int| 0 <= k < j ==> best_dist <= spec_color_distance(rgb, #[trigger] pal@[k].1),
            forall|k: int| 0 <= k < best ==> spec_color_distance(rgb, #[trigger] pal@[k].1) > best_dist,
        decreases n - j,
    {
        let d = color_distance(rgb, pal[j].1);
        if d < best_dist {
            best = j;
            best_dist = d;
        }
        j = j + 1;
    }
    best
}

/// Name of the palette color that a pixel shows: "Transparent" for a fully
/// transparent pixel, else the name of the palette color nearest to its RGB
/// value (the exact color when it is in the palette).
pub fn find_color_name(pixel: (u8, u8, u8, u8)) -> (r: &'static str)
    ensures
        pixel.3 == 0 ==> r == "Transparent",
        pixel.3 != 0 ==> exists|i: int| is_nearest(palette(), (pixel.0, pixel.1, pixel.2), i) && r == palette()[i].0,
{
    if pixel.3 == 0 {
        return "Transparent";
    }
    let pal = colors_map_vec();
    let i = find_color_index(&pal, (pixel.0, pixel.1, pixel.2));
    pal[i].0
}

} // verus!
