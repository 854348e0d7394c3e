//! How many terminal cells a text occupies.

use crate::text::chars_of;
use vstd::prelude::*;
use vstd::string::*;

verus! {

/// Marks of the European and Middle Eastern scripts.
pub open spec fn marks_below_0900(c: u32) -> bool {
    ||| 0x0300 <= c <= 0x036F
    ||| 0x0483 <= c <= 0x0489
    ||| 0x0591 <= c <= 0x05BD
    ||| c == 0x05BF
    ||| 0x05C1 <= c <= 0x05C2
    ||| 0x05C4 <= c <= 0x05C5
    ||| 0x05C7 <= c <= 0x05C9
    ||| 0x0610 <= c <= 0x061A
    ||| c == 0x061C
    ||| 0x064B <= c <= 0x065F
    ||| c == 0x0670
    ||| 0x06D6 <= c <= 0x06DC
    ||| 0x06DF <= c <= 0x06E4
    ||| 0x06E7 <= c <= 0x06E8
    ||| 0x06EA <= c <= 0x06ED
    ||| c == 0x0711
    ||| 0x0730 <= c <= 0x074A
    ||| 0x07A6 <= c <= 0x07B0
    ||| 0x07EB <= c <= 0x07F3
    ||| c == 0x07FD
    ||| 0x0816 <= c <= 0x0819
    ||| 0x081B <= c <= 0x0823
    ||| 0x0825 <= c <= 0x0827
    ||| 0x0829 <= c <= 0x082D
    ||| 0x0859 <= c <= 0x085B
    ||| 0x0897 <= c <= 0x089F
    ||| 0x08CA <= c <= 0x08E1
    ||| 0x08E3 <= c <= 0x08FF
}

/// Marks of the Indic scripts.
pub open spec fn marks_below_0e00(c: u32) -> bool {
    ||| 0x0900 <= c <= 0x0902
    ||| c == 0x093A
    ||| c == 0x093C
    ||| 0x0941 <= c <= 0x0948
    ||| c == 0x094D
    ||| 0x0951 <= c <= 0x0957
    ||| 0x0962 <= c <= 0x0963
    ||| c == 0x0981
    ||| c == 0x09BC
    ||| c == 0x09BE
    ||| 0x09C1 <= c <= 0x09C4
    ||| c == 0x09CD
    ||| c == 0x09D7
    ||| 0x09E2 <= c <= 0x09E3
    ||| c == 0x09FE
    ||| 0x0A01 <= c <= 0x0A02
    ||| c == 0x0A3C
    ||| 0x0A41 <= c <= 0x0A42
    ||| 0x0A47 <= c <= 0x0A48
    ||| 0x0A4B <= c <= 0x0A4D
    ||| c == 0x0A51
    ||| 0x0A70 <= c <= 0x0A71
    ||| c == 0x0A75
    ||| 0x0A81 <= c <= 0x0A82
    ||| c == 0x0ABC
    ||| 0x0AC1 <= c <= 0x0AC5
    ||| 0x0AC7 <= c <= 0x0AC8
    ||| c == 0x0ACD
    ||| 0x0AE2 <= c <= 0x0AE3
    ||| 0x0AFA <= c <= 0x0AFF
    ||| c == 0x0B01
    ||| c == 0x0B3C
    ||| 0x0B3E <= c <= 0x0B3F
    ||| 0x0B41 <= c <= 0x0B44
    ||| c == 0x0B4D
    ||| 0x0B53 <= c <= 0x0B57
    ||| 0x0B62 <= c <= 0x0B63
    ||| c == 0x0B82
    ||| c == 0x0BBE
    ||| c == 0x0BC0
    ||| c == 0x0BCD
    ||| c == 0x0BD7
    ||| c == 0x0C00
    ||| c == 0x0C04
    ||| c == 0x0C3C
    ||| 0x0C3E <= c <= 0x0C40
    ||| 0x0C46 <= c <= 0x0C48
    ||| 0x0C4A <= c <= 0x0C4D
    ||| 0x0C55 <= c <= 0x0C56
    ||| 0x0C62 <= c <= 0x0C63
    ||| c == 0x0C81
    ||| c == 0x0CBC
    ||| 0x0CBF <= c <= 0x0CC0
    ||| c == 0x0CC2
    ||| 0x0CC6 <= c <= 0x0CC8
    ||| 0x0CCA <= c <= 0x0CCD
    ||| 0x0CD5 <= c <= 0x0CD6
    ||| 0x0CE2 <= c <= 0x0CE3
    ||| 0x0D00 <= c <= 0x0D01
    ||| 0x0D3B <= c <= 0x0D3C
    ||| c == 0x0D3E
    ||| 0x0D41 <= c <= 0x0D44
    ||| c == 0x0D4D
    ||| c == 0x0D57
    ||| 0x0D62 <= c <= 0x0D63
    ||| c == 0x0D81
    ||| c == 0x0DCA
    ||| c == 0x0DCF
    ||| 0x0DD2 <= c <= 0x0DD4
    ||| c == 0x0DD6
    ||| c == 0x0DDF
}

/// Marks of the scripts of Southeast Asia, Tibet, Ethiopia and Mongolia, and
/// the conjoining Hangul vowels and finals.
pub open spec fn marks_below_2000(c: u32) -> bool {
    ||| c == 0x0E31
    ||| 0x0E34 <= c <= 0x0E3A
    ||| 0x0E47 <= c <= 0x0E4E
    ||| c == 0x0EB1
    ||| 0x0EB4 <= c <= 0x0EBC
    ||| 0x0EC8 <= c <= 0x0ECE
    ||| 0x0F18 <= c <= 0x0F19
    ||| c == 0x0F35
    ||| c == 0x0F37
    ||| c == 0x0F39
    ||| 0x0F71 <= c <= 0x0F7E
    ||| 0x0F80 <= c <= 0x0F84
    ||| 0x0F86 <= c <= 0x0F87
    ||| 0x0F8D <= c <= 0x0F97
    ||| 0x0F99 <= c <= 0x0FBC
    ||| c == 0x0FC6
    ||| 0x102D <= c <= 0x1030
    ||| 0x1032 <= c <= 0x1037
    ||| 0x1039 <= c <= 0x103A
    ||| 0x103D <= c <= 0x103E
    ||| 0x1058 <= c <= 0x1059
    ||| 0x105E <= c <= 0x1060
    ||| 0x1071 <= c <= 0x1074
    ||| c == 0x1082
    ||| 0x1085 <= c <= 0x1086
    ||| c == 0x108D
    ||| c == 0x109D
    ||| 0x1160 <= c <= 0x11FF
    ||| 0x135D <= c <= 0x135F
    ||| 0x1712 <= c <= 0x1715
    ||| 0x1732 <= c <= 0x1734
    ||| 0x1752 <= c <= 0x1753
    ||| 0x1772 <= c <= 0x1773
    ||| 0x17B4 <= c <= 0x17B5
    ||| 0x17B7 <= c <= 0x17BD
    ||| c == 0x17C6
    ||| 0x17C9 <= c <= 0x17D3
    ||| c == 0x17DD
    ||| 0x180B <= c <= 0x180F
    ||| 0x1885 <= c <= 0x1886
    ||| c == 0x18A9
    ||| 0x1920 <= c <= 0x1922
    ||| 0x1927 <= c <= 0x1928
    ||| c == 0x1932
    ||| 0x1939 <= c <= 0x193B
    ||| 0x1A17 <= c <= 0x1A18
    ||| c == 0x1A1B
    ||| c == 0x1A56
    ||| 0x1A58 <= c <= 0x1A5E
    ||| c == 0x1A60
    ||| c == 0x1A62
    ||| 0x1A65 <= c <= 0x1A6C
    ||| 0x1A73 <= c <= 0x1A7C
    ||| c == 0x1A7F
    ||| 0x1AB0 <= c <= 0x1AF0
    ||| 0x1B00 <= c <= 0x1B03
    ||| 0x1B34 <= c <= 0x1B3D
    ||| 0x1B42 <= c <= 0x1B44
    ||| 0x1B6B <= c <= 0x1B73
    ||| 0x1B80 <= c <= 0x1B81
    ||| 0x1BA2 <= c <= 0x1BA5
    ||| 0x1BA8 <= c <= 0x1BAD
    ||| c == 0x1BE6
    ||| 0x1BE8 <= c <= 0x1BE9
    ||| c == 0x1BED
    ||| 0x1BEF <= c <= 0x1BF3
    ||| 0x1C2C <= c <= 0x1C33
    ||| 0x1C36 <= c <= 0x1C37
    ||| 0x1CD0 <= c <= 0x1CD2
    ||| 0x1CD4 <= c <= 0x1CE0
    ||| 0x1CE2 <= c <= 0x1CE8
    ||| c == 0x1CED
    ||| c == 0x1CF4
    ||| 0x1CF8 <= c <= 0x1CF9
    ||| 0x1DC0 <= c <= 0x1DFF
}

/// Invisible format characters, variation selectors and the remaining marks of
/// the basic plane.
pub open spec fn marks_below_10000(c: u32) -> bool {
    ||| 0x200B <= c <= 0x200F
    ||| 0x202A <= c <= 0x202E
    ||| 0x2060 <= c <= 0x206F
    ||| 0x20D0 <= c <= 0x20F0
    ||| 0x2CEF <= c <= 0x2CF1
    ||| c == 0x2D7F
    ||| 0x2DE0 <= c <= 0x2DFF
    ||| 0x302A <= c <= 0x302F
    ||| 0x3099 <= c <= 0x309A
    ||| c == 0x3164
    ||| 0xA66F <= c <= 0xA672
    ||| 0xA674 <= c <= 0xA67D
    ||| 0xA69E <= c <= 0xA69F
    ||| 0xA6F0 <= c <= 0xA6F1
    ||| c == 0xA802
    ||| c == 0xA806
    ||| c == 0xA80B
    ||| 0xA825 <= c <= 0xA826
    ||| c == 0xA82C
    ||| 0xA8C4 <= c <= 0xA8C5
    ||| 0xA8E0 <= c <= 0xA8F1
    ||| c == 0xA8FA
    ||| c == 0xA8FF
    ||| 0xA926 <= c <= 0xA92D
    ||| 0xA947 <= c <= 0xA951
    ||| c == 0xA953
    ||| 0xA980 <= c <= 0xA982
    ||| c == 0xA9B3
    ||| 0xA9B6 <= c <= 0xA9B9
    ||| 0xA9BC <= c <= 0xA9BD
    ||| c == 0xA9C0
    ||| c == 0xA9E5
    ||| 0xAA29 <= c <= 0xAA2E
    ||| 0xAA31 <= c <= 0xAA32
    ||| 0xAA35 <= c <= 0xAA36
    ||| c == 0xAA43
    ||| c == 0xAA4C
    ||| c == 0xAA7C
    ||| c == 0xAAB0
    ||| 0xAAB2 <= c <= 0xAAB4
    ||| 0xAAB7 <= c <= 0xAAB8
    ||| 0xAABE <= c <= 0xAABF
    ||| c == 0xAAC1
    ||| 0xAAEC <= c <= 0xAAED
    ||| c == 0xAAF6
    ||| c == 0xABE5
    ||| c == 0xABE8
    ||| c == 0xABED
    ||| 0xD7B0 <= c <= 0xD7C6
    ||| 0xD7CB <= c <= 0xD7FB
    ||| c == 0xFB1E
    ||| 0xFE00 <= c <= 0xFE0F
    ||| 0xFE20 <= c <= 0xFE2F
    ||| c == 0xFEFF
    ||| c == 0xFFA0
}

/// Marks of the historic scripts and of the first Brahmic ones beyond the basic
/// plane.
pub open spec fn marks_below_11300(c: u32) -> bool {
    ||| c == 0x101FD
    ||| c == 0x102E0
    ||| 0x10376 <= c <= 0x1037A
    ||| 0x10A01 <= c <= 0x10A03
    ||| 0x10A05 <= c <= 0x10A06
    ||| 0x10A0C <= c <= 0x10A0F
    ||| 0x10A38 <= c <= 0x10A3A
    ||| c == 0x10A3F
    ||| 0x10AE5 <= c <= 0x10AE6
    ||| 0x10D24 <= c <= 0x10D27
    ||| 0x10D69 <= c <= 0x10D6D
    ||| 0x10EAB <= c <= 0x10EAC
    ||| 0x10ECB <= c <= 0x10ECF
    ||| 0x10EF0 <= c <= 0x10EFF
    ||| 0x10F46 <= c <= 0x10F50
    ||| 0x10F82 <= c <= 0x10F85
    ||| c == 0x11001
    ||| 0x11038 <= c <= 0x11046
    ||| c == 0x11070
    ||| 0x11073 <= c <= 0x11074
    ||| 0x1107F <= c <= 0x11081
    ||| 0x110B3 <= c <= 0x110B6
    ||| 0x110B9 <= c <= 0x110BA
    ||| c == 0x110C2
    ||| 0x11100 <= c <= 0x11102
    ||| 0x11127 <= c <= 0x1112B
    ||| 0x1112D <= c <= 0x11134
    ||| c == 0x11173
    ||| 0x11180 <= c <= 0x11181
    ||| 0x111B6 <= c <= 0x111BE
    ||| c == 0x111C0
    ||| 0x111C2 <= c <= 0x111C3
    ||| 0x111C9 <= c <= 0x111CC
    ||| c == 0x111CF
    ||| 0x1122F <= c <= 0x11231
    ||| 0x11234 <= c <= 0x11237
    ||| c == 0x1123E
    ||| c == 0x11241
    ||| c == 0x112DF
    ||| 0x112E3 <= c <= 0x112EA
}

/// The remaining marks, tags and variation selectors.
pub open spec fn marks_above(c: u32) -> bool {
    ||| 0x11300 <= c <= 0x11301
    ||| 0x1133B <= c <= 0x1133C
    ||| c == 0x1133E
    ||| c == 0x11340
    ||| c == 0x1134D
    ||| c == 0x11357
    ||| 0x11366 <= c <= 0x1136C
    ||| 0x11370 <= c <= 0x11374
    ||| c == 0x113B8
    ||| 0x113BB <= c <= 0x113C0
    ||| c == 0x113C2
    ||| c == 0x113C5
    ||| 0x113C7 <= c <= 0x113C9
    ||| 0x113CE <= c <= 0x113D2
    ||| 0x113E1 <= c <= 0x113E2
    ||| 0x11438 <= c <= 0x1143F
    ||| 0x11442 <= c <= 0x11444
    ||| c == 0x11446
    ||| c == 0x1145E
    ||| c == 0x114B0
    ||| 0x114B3 <= c <= 0x114B8
    ||| c == 0x114BA
    ||| c == 0x114BD
    ||| 0x114BF <= c <= 0x114C0
    ||| 0x114C2 <= c <= 0x114C3
    ||| c == 0x115AF
    ||| 0x115B2 <= c <= 0x115B5
    ||| 0x115BC <= c <= 0x115BD
    ||| 0x115BF <= c <= 0x115C0
    ||| 0x115DC <= c <= 0x115DD
    ||| 0x11633 <= c <= 0x1163A
    ||| c == 0x1163D
    ||| 0x1163F <= c <= 0x11640
    ||| c == 0x116AB
    ||| c == 0x116AD
    ||| 0x116B0 <= c <= 0x116B7
    ||| 0x1171D <= c <= 0x1171F
    ||| 0x11722 <= c <= 0x11725
    ||| 0x11727 <= c <= 0x1172B
    ||| 0x1182F <= c <= 0x11837
    ||| 0x11839 <= c <= 0x1183A
    ||| c == 0x11930
    ||| 0x1193B <= c <= 0x1193F
    ||| c == 0x11941
    ||| c == 0x11943
    ||| 0x119D4 <= c <= 0x119D7
    ||| 0x119DA <= c <= 0x119DB
    ||| c == 0x119E0
    ||| 0x11A01 <= c <= 0x11A0A
    ||| 0x11A33 <= c <= 0x11A38
    ||| 0x11A3B <= c <= 0x11A3E
    ||| c == 0x11A47
    ||| 0x11A51 <= c <= 0x11A56
    ||| 0x11A59 <= c <= 0x11A5B
    ||| 0x11A84 <= c <= 0x11A96
    ||| 0x11A98 <= c <= 0x11A99
    ||| c == 0x11B60
    ||| 0x11B62 <= c <= 0x11B64
    ||| c == 0x11B66
    ||| 0x11C30 <= c <= 0x11C36
    ||| 0x11C38 <= c <= 0x11C3D
    ||| c == 0x11C3F
    ||| 0x11C92 <= c <= 0x11CA7
    ||| 0x11CAA <= c <= 0x11CB0
    ||| 0x11CB2 <= c <= 0x11CB3
    ||| 0x11CB5 <= c <= 0x11CB6
    ||| 0x11D31 <= c <= 0x11D36
    ||| c == 0x11D3A
    ||| 0x11D3C <= c <= 0x11D3D
    ||| 0x11D3F <= c <= 0x11D47
    ||| 0x11D90 <= c <= 0x11D91
    ||| c == 0x11D95
    ||| c == 0x11D97
    ||| c == 0x11DF0
    ||| 0x11EF3 <= c <= 0x11EF4
    ||| 0x11F00 <= c <= 0x11F02
    ||| 0x11F36 <= c <= 0x11F3A
    ||| 0x11F40 <= c <= 0x11F42
    ||| c == 0x11F5A
    ||| c == 0x13440
    ||| 0x13447 <= c <= 0x13455
    ||| 0x1611E <= c <= 0x16129
    ||| 0x1612D <= c <= 0x1612F
    ||| 0x16AF0 <= c <= 0x16AF4
    ||| 0x16B30 <= c <= 0x16B36
    ||| c == 0x16F4F
    ||| 0x16F8F <= c <= 0x16F92
    ||| c == 0x16FE4
    ||| 0x16FF0 <= c <= 0x16FF1
    ||| 0x1BC9D <= c <= 0x1BC9E
    ||| 0x1BCA0 <= c <= 0x1BCA3
    ||| 0x1CF00 <= c <= 0x1CF2D
    ||| 0x1CF30 <= c <= 0x1CF46
    ||| 0x1D127 <= c <= 0x1D128
    ||| 0x1D165 <= c <= 0x1D169
    ||| 0x1D16D <= c <= 0x1D182
    ||| 0x1D185 <= c <= 0x1D18B
    ||| 0x1D1AA <= c <= 0x1D1AD
    ||| 0x1D242 <= c <= 0x1D244
    ||| 0x1D250 <= c <= 0x1D252
    ||| 0x1D25B <= c <= 0x1D25C
    ||| c == 0x1D25F
    ||| 0x1D280 <= c <= 0x1D281
    ||| 0x1DA00 <= c <= 0x1DA36
    ||| 0x1DA3B <= c <= 0x1DA6C
    ||| c == 0x1DA75
    ||| c == 0x1DA84
    ||| 0x1DA9B <= c <= 0x1DA9F
    ||| 0x1DAA1 <= c <= 0x1DAAF
    ||| 0x1E000 <= c <= 0x1E006
    ||| 0x1E008 <= c <= 0x1E018
    ||| 0x1E01B <= c <= 0x1E021
    ||| 0x1E023 <= c <= 0x1E024
    ||| 0x1E026 <= c <= 0x1E02A
    ||| c == 0x1E08F
    ||| 0x1E130 <= c <= 0x1E136
    ||| c == 0x1E2AE
    ||| 0x1E2EC <= c <= 0x1E2EF
    ||| 0x1E4EC <= c <= 0x1E4EF
    ||| 0x1E5EE <= c <= 0x1E5EF
    ||| c == 0x1E6E3
    ||| c == 0x1E6E6
    ||| 0x1E6EE <= c <= 0x1E6EF
    ||| c == 0x1E6F5
    ||| 0x1E8D0 <= c <= 0x1E8D6
    ||| 0x1E944 <= c <= 0x1E94A
    ||| 0xE0000 <= c <= 0xE0FFF
}

/// Combining marks, conjoining vowels, joiners, variation selectors and other
/// invisible format characters: they occupy no cell of their own.
pub open spec fn zero_width(c: u32) -> bool {
    ||| marks_below_0900(c)
    ||| marks_below_0e00(c)
    ||| marks_below_2000(c)
    ||| marks_below_10000(c)
    ||| marks_below_11300(c)
    ||| marks_above(c)
}

/// Wide symbols, and the leading Hangul consonants.
pub open spec fn wide_below_2e80(c: u32) -> bool {
    ||| 0x1100 <= c <= 0x115F
    ||| 0x231A <= c <= 0x231B
    ||| 0x2329 <= c <= 0x232A
    ||| 0x23E9 <= c <= 0x23EC
    ||| c == 0x23F0
    ||| c == 0x23F3
    ||| 0x25FD <= c <= 0x25FE
    ||| 0x2614 <= c <= 0x2615
    ||| 0x2630 <= c <= 0x2637
    ||| 0x2648 <= c <= 0x2653
    ||| c == 0x267F
    ||| 0x268A <= c <= 0x268F
    ||| c == 0x2693
    ||| c == 0x26A1
    ||| 0x26AA <= c <= 0x26AB
    ||| 0x26BD <= c <= 0x26BE
    ||| 0x26C4 <= c <= 0x26C5
    ||| c == 0x26CE
    ||| c == 0x26D4
    ||| c == 0x26EA
    ||| 0x26F2 <= c <= 0x26F3
    ||| c == 0x26F5
    ||| c == 0x26FA
    ||| c == 0x26FD
    ||| c == 0x2705
    ||| 0x270A <= c <= 0x270B
    ||| c == 0x2728
    ||| c == 0x274C
    ||| c == 0x274E
    ||| 0x2753 <= c <= 0x2755
    ||| c == 0x2757
    ||| 0x2795 <= c <= 0x2797
    ||| c == 0x27B0
    ||| c == 0x27BF
    ||| 0x2B1B <= c <= 0x2B1C
    ||| c == 0x2B50
    ||| c == 0x2B55
}

/// Ideographs, kana, Hangul and full-width forms.
pub open spec fn wide_below_10000(c: u32) -> bool {
    ||| 0x2E80 <= c <= 0x2E99
    ||| 0x2E9B <= c <= 0x2EF3
    ||| 0x2F00 <= c <= 0x2FD5
    ||| 0x2FF0 <= c <= 0x3029
    ||| 0x3030 <= c <= 0x303E
    ||| 0x3041 <= c <= 0x3096
    ||| 0x309B <= c <= 0x30FF
    ||| 0x3105 <= c <= 0x312F
    ||| 0x3131 <= c <= 0x3163
    ||| 0x3165 <= c <= 0x318E
    ||| 0x3190 <= c <= 0x31E5
    ||| 0x31EF <= c <= 0x321E
    ||| 0x3220 <= c <= 0x3247
    ||| 0x3250 <= c <= 0xA48C
    ||| 0xA490 <= c <= 0xA4C6
    ||| 0xA960 <= c <= 0xA97C
    ||| 0xAC00 <= c <= 0xD7A3
    ||| 0xF900 <= c <= 0xFAFF
    ||| 0xFE10 <= c <= 0xFE19
    ||| 0xFE30 <= c <= 0xFE52
    ||| 0xFE54 <= c <= 0xFE66
    ||| 0xFE68 <= c <= 0xFE6B
    ||| 0xFF01 <= c <= 0xFF60
    ||| 0xFFE0 <= c <= 0xFFE6
}

/// Wide scripts, symbols and ideographs beyond the basic plane.
pub open spec fn wide_above(c: u32) -> bool {
    ||| 0x16FE0 <= c <= 0x16FE3
    ||| 0x16FF2 <= c <= 0x16FF6
    ||| 0x17000 <= c <= 0x18CDA
    ||| 0x18CFF <= c <= 0x18D20
    ||| 0x18D80 <= c <= 0x18DF2
    ||| 0x18E00 <= c <= 0x19191
    ||| 0x191A0 <= c <= 0x191D2
    ||| 0x1AFF0 <= c <= 0x1AFF3
    ||| 0x1AFF5 <= c <= 0x1AFFB
    ||| 0x1AFFD <= c <= 0x1AFFE
    ||| 0x1B000 <= c <= 0x1B128
    ||| c == 0x1B132
    ||| 0x1B150 <= c <= 0x1B152
    ||| c == 0x1B155
    ||| 0x1B164 <= c <= 0x1B168
    ||| 0x1B170 <= c <= 0x1B2FB
    ||| 0x1D300 <= c <= 0x1D356
    ||| 0x1D360 <= c <= 0x1D376
    ||| c == 0x1F004
    ||| c == 0x1F0CF
    ||| c == 0x1F18E
    ||| 0x1F191 <= c <= 0x1F19A
    ||| c == 0x1F1AE
    ||| 0x1F200 <= c <= 0x1F202
    ||| 0x1F210 <= c <= 0x1F23B
    ||| 0x1F240 <= c <= 0x1F248
    ||| 0x1F250 <= c <= 0x1F251
    ||| 0x1F260 <= c <= 0x1F265
    ||| 0x1F300 <= c <= 0x1F320
    ||| 0x1F32D <= c <= 0x1F335
    ||| 0x1F337 <= c <= 0x1F37C
    ||| 0x1F37E <= c <= 0x1F393
    ||| 0x1F3A0 <= c <= 0x1F3CA
    ||| 0x1F3CF <= c <= 0x1F3D3
    ||| 0x1F3E0 <= c <= 0x1F3F0
    ||| c == 0x1F3F4
    ||| 0x1F3F8 <= c <= 0x1F43E
    ||| c == 0x1F440
    ||| 0x1F442 <= c <= 0x1F4FC
    ||| 0x1F4FF <= c <= 0x1F53D
    ||| 0x1F54B <= c <= 0x1F54E
    ||| 0x1F550 <= c <= 0x1F567
    ||| c == 0x1F57A
    ||| 0x1F595 <= c <= 0x1F596
    ||| c == 0x1F5A4
    ||| 0x1F5FB <= c <= 0x1F64F
    ||| 0x1F680 <= c <= 0x1F6C5
    ||| c == 0x1F6CC
    ||| 0x1F6D0 <= c <= 0x1F6D2
    ||| 0x1F6D5 <= c <= 0x1F6D9
    ||| 0x1F6DC <= c <= 0x1F6DF
    ||| 0x1F6EB <= c <= 0x1F6EC
    ||| 0x1F6F4 <= c <= 0x1F6FC
    ||| c == 0x1F7DA
    ||| 0x1F7E0 <= c <= 0x1F7EB
    ||| c == 0x1F7F0
    ||| 0x1F90C <= c <= 0x1F93A
    ||| 0x1F93C <= c <= 0x1F945
    ||| 0x1F947 <= c <= 0x1F9FF
    ||| 0x1FA70 <= c <= 0x1FA7C
    ||| 0x1FA80 <= c <= 0x1FAC6
    ||| c == 0x1FAC8
    ||| 0x1FACC <= c <= 0x1FADD
    ||| 0x1FADF <= c <= 0x1FAEB
    ||| 0x1FAEF <= c <= 0x1FAFA
    ||| 0x20000 <= c <= 0x2FFFD
    ||| 0x30000 <= c <= 0x3FFFD
}

/// East Asian wide and full-width characters, among them the symbols that are
/// shown as emoji by themselves: they occupy two cells.
pub open spec fn double_width(c: u32) -> bool {
    ||| wide_below_2e80(c)
    ||| wide_below_10000(c)
    ||| wide_above(c)
}

/// Cells that one character occupies.
pub open spec fn cells(c: char) -> nat {
    if zero_width(c as u32) {
        0
    } else if double_width(c as u32) {
        2
    } else {
        1
    }
}

/// Cells that a text occupies.
pub open spec fn width(s: Seq<char>) -> nat
    decreases s.len(),
{
    if s.len() == 0 {
        0
    } else {
        width(s.drop_last()) + cells(s.last())
    }
}

fn is_marks_below_0900(c: u32) -> (yes: bool)
    ensures
        yes == marks_below_0900(c),
{
    (0x0300 <= c && c <= 0x036F)
        || (0x0483 <= c && c <= 0x0489)
        || (0x0591 <= c && c <= 0x05BD)
        || c == 0x05BF
        || (0x05C1 <= c && c <= 0x05C2)
        || (0x05C4 <= c && c <= 0x05C5)
        || (0x05C7 <= c && c <= 0x05C9)
        || (0x0610 <= c && c <= 0x061A)
        || c == 0x061C
        || (0x064B <= c && c <= 0x065F)
        || c == 0x0670
        || (0x06D6 <= c && c <= 0x06DC)
        || (0x06DF <= c && c <= 0x06E4)
        || (0x06E7 <= c && c <= 0x06E8)
        || (0x06EA <= c && c <= 0x06ED)
        || c == 0x0711
        || (0x0730 <= c && c <= 0x074A)
        || (0x07A6 <= c && c <= 0x07B0)
        || (0x07EB <= c && c <= 0x07F3)
        || c == 0x07FD
        || (0x0816 <= c && c <= 0x0819)
        || (0x081B <= c && c <= 0x0823)
        || (0x0825 <= c && c <= 0x0827)
        || (0x0829 <= c && c <= 0x082D)
        || (0x0859 <= c && c <= 0x085B)
        || (0x0897 <= c && c <= 0x089F)
        || (0x08CA <= c && c <= 0x08E1)
        || (0x08E3 <= c && c <= 0x08FF)
}

fn is_marks_below_0e00(c: u32) -> (yes: bool)
    ensures
        yes == marks_below_0e00(c),
{
    (0x0900 <= c && c <= 0x0902)
        || c == 0x093A
        || c == 0x093C
        || (0x0941 <= c && c <= 0x0948)
        || c == 0x094D
        || (0x0951 <= c && c <= 0x0957)
        || (0x0962 <= c && c <= 0x0963)
        || c == 0x0981
        || c == 0x09BC
        || c == 0x09BE
        || (0x09C1 <= c && c <= 0x09C4)
        || c == 0x09CD
        || c == 0x09D7
        || (0x09E2 <= c && c <= 0x09E3)
        || c == 0x09FE
        || (0x0A01 <= c && c <= 0x0A02)
        || c == 0x0A3C
        || (0x0A41 <= c && c <= 0x0A42)
        || (0x0A47 <= c && c <= 0x0A48)
        || (0x0A4B <= c && c <= 0x0A4D)
        || c == 0x0A51
        || (0x0A70 <= c && c <= 0x0A71)
        || c == 0x0A75
        || (0x0A81 <= c && c <= 0x0A82)
        || c == 0x0ABC
        || (0x0AC1 <= c && c <= 0x0AC5)
        || (0x0AC7 <= c && c <= 0x0AC8)
        || c == 0x0ACD
        || (0x0AE2 <= c && c <= 0x0AE3)
        || (0x0AFA <= c && c <= 0x0AFF)
        || c == 0x0B01
        || c == 0x0B3C
        || (0x0B3E <= c && c <= 0x0B3F)
        || (0x0B41 <= c && c <= 0x0B44)
        || c == 0x0B4D
        || (0x0B53 <= c && c <= 0x0B57)
        || (0x0B62 <= c && c <= 0x0B63)
        || c == 0x0B82
        || c == 0x0BBE
        || c == 0x0BC0
        || c == 0x0BCD
        || c == 0x0BD7
        || c == 0x0C00
        || c == 0x0C04
        || c == 0x0C3C
        || (0x0C3E <= c && c <= 0x0C40)
        || (0x0C46 <= c && c <= 0x0C48)
        || (0x0C4A <= c && c <= 0x0C4D)
        || (0x0C55 <= c && c <= 0x0C56)
        || (0x0C62 <= c && c <= 0x0C63)
        || c == 0x0C81
        || c == 0x0CBC
        || (0x0CBF <= c && c <= 0x0CC0)
        || c == 0x0CC2
        || (0x0CC6 <= c && c <= 0x0CC8)
        || (0x0CCA <= c && c <= 0x0CCD)
        || (0x0CD5 <= c && c <= 0x0CD6)
        || (0x0CE2 <= c && c <= 0x0CE3)
        || (0x0D00 <= c && c <= 0x0D01)
        || (0x0D3B <= c && c <= 0x0D3C)
        || c == 0x0D3E
        || (0x0D41 <= c && c <= 0x0D44)
        || c == 0x0D4D
        || c == 0x0D57
        || (0x0D62 <= c && c <= 0x0D63)
        || c == 0x0D81
        || c == 0x0DCA
        || c == 0x0DCF
        || (0x0DD2 <= c && c <= 0x0DD4)
        || c == 0x0DD6
        || c == 0x0DDF
}

fn is_marks_below_2000(c: u32) -> (yes: bool)
    ensures
        yes == marks_below_2000(c),
{
    c == 0x0E31
        || (0x0E34 <= c && c <= 0x0E3A)
        || (0x0E47 <= c && c <= 0x0E4E)
        || c == 0x0EB1
        || (0x0EB4 <= c && c <= 0x0EBC)
        || (0x0EC8 <= c && c <= 0x0ECE)
        || (0x0F18 <= c && c <= 0x0F19)
        || c == 0x0F35
        || c == 0x0F37
        || c == 0x0F39
        || (0x0F71 <= c && c <= 0x0F7E)
        || (0x0F80 <= c && c <= 0x0F84)
        || (0x0F86 <= c && c <= 0x0F87)
        || (0x0F8D <= c && c <= 0x0F97)
        || (0x0F99 <= c && c <= 0x0FBC)
        || c == 0x0FC6
        || (0x102D <= c && c <= 0x1030)
        || (0x1032 <= c && c <= 0x1037)
        || (0x1039 <= c && c <= 0x103A)
        || (0x103D <= c && c <= 0x103E)
        || (0x1058 <= c && c <= 0x1059)
        || (0x105E <= c && c <= 0x1060)
        || (0x1071 <= c && c <= 0x1074)
        || c == 0x1082
        || (0x1085 <= c && c <= 0x1086)
        || c == 0x108D
        || c == 0x109D
        || (0x1160 <= c && c <= 0x11FF)
        || (0x135D <= c && c <= 0x135F)
        || (0x1712 <= c && c <= 0x1715)
        || (0x1732 <= c && c <= 0x1734)
        || (0x1752 <= c && c <= 0x1753)
        || (0x1772 <= c && c <= 0x1773)
        || (0x17B4 <= c && c <= 0x17B5)
        || (0x17B7 <= c && c <= 0x17BD)
        || c == 0x17C6
        || (0x17C9 <= c && c <= 0x17D3)
        || c == 0x17DD
        || (0x180B <= c && c <= 0x180F)
        || (0x1885 <= c && c <= 0x1886)
        || c == 0x18A9
        || (0x1920 <= c && c <= 0x1922)
        || (0x1927 <= c && c <= 0x1928)
        || c == 0x1932
        || (0x1939 <= c && c <= 0x193B)
        || (0x1A17 <= c && c <= 0x1A18)
        || c == 0x1A1B
        || c == 0x1A56
        || (0x1A58 <= c && c <= 0x1A5E)
        || c == 0x1A60
        || c == 0x1A62
        || (0x1A65 <= c && c <= 0x1A6C)
        || (0x1A73 <= c && c <= 0x1A7C)
        || c == 0x1A7F
        || (0x1AB0 <= c && c <= 0x1AF0)
        || (0x1B00 <= c && c <= 0x1B03)
        || (0x1B34 <= c && c <= 0x1B3D)
        || (0x1B42 <= c && c <= 0x1B44)
        || (0x1B6B <= c && c <= 0x1B73)
        || (0x1B80 <= c && c <= 0x1B81)
        || (0x1BA2 <= c && c <= 0x1BA5)
        || (0x1BA8 <= c && c <= 0x1BAD)
        || c == 0x1BE6
        || (0x1BE8 <= c && c <= 0x1BE9)
        || c == 0x1BED
        || (0x1BEF <= c && c <= 0x1BF3)
        || (0x1C2C <= c && c <= 0x1C33)
        || (0x1C36 <= c && c <= 0x1C37)
        || (0x1CD0 <= c && c <= 0x1CD2)
        || (0x1CD4 <= c && c <= 0x1CE0)
        || (0x1CE2 <= c && c <= 0x1CE8)
        || c == 0x1CED
        || c == 0x1CF4
        || (0x1CF8 <= c && c <= 0x1CF9)
        || (0x1DC0 <= c && c <= 0x1DFF)
}

fn is_marks_below_10000(c: u32) -> (yes: bool)
    ensures
        yes == marks_below_10000(c),
{
    (0x200B <= c && c <= 0x200F)
        || (0x202A <= c && c <= 0x202E)
        || (0x2060 <= c && c <= 0x206F)
        || (0x20D0 <= c && c <= 0x20F0)
        || (0x2CEF <= c && c <= 0x2CF1)
        || c == 0x2D7F
        || (0x2DE0 <= c && c <= 0x2DFF)
        || (0x302A <= c && c <= 0x302F)
        || (0x3099 <= c && c <= 0x309A)
        || c == 0x3164
        || (0xA66F <= c && c <= 0xA672)
        || (0xA674 <= c && c <= 0xA67D)
        || (0xA69E <= c && c <= 0xA69F)
        || (0xA6F0 <= c && c <= 0xA6F1)
        || c == 0xA802
        || c == 0xA806
        || c == 0xA80B
        || (0xA825 <= c && c <= 0xA826)
        || c == 0xA82C
        || (0xA8C4 <= c && c <= 0xA8C5)
        || (0xA8E0 <= c && c <= 0xA8F1)
        || c == 0xA8FA
        || c == 0xA8FF
        || (0xA926 <= c && c <= 0xA92D)
        || (0xA947 <= c && c <= 0xA951)
        || c == 0xA953
        || (0xA980 <= c && c <= 0xA982)
        || c == 0xA9B3
        || (0xA9B6 <= c && c <= 0xA9B9)
        || (0xA9BC <= c && c <= 0xA9BD)
        || c == 0xA9C0
        || c == 0xA9E5
        || (0xAA29 <= c && c <= 0xAA2E)
        || (0xAA31 <= c && c <= 0xAA32)
        || (0xAA35 <= c && c <= 0xAA36)
        || c == 0xAA43
        || c == 0xAA4C
        || c == 0xAA7C
        || c == 0xAAB0
        || (0xAAB2 <= c && c <= 0xAAB4)
        || (0xAAB7 <= c && c <= 0xAAB8)
        || (0xAABE <= c && c <= 0xAABF)
        || c == 0xAAC1
        || (0xAAEC <= c && c <= 0xAAED)
        || c == 0xAAF6
        || c == 0xABE5
        || c == 0xABE8
        || c == 0xABED
        || (0xD7B0 <= c && c <= 0xD7C6)
        || (0xD7CB <= c && c <= 0xD7FB)
        || c == 0xFB1E
        || (0xFE00 <= c && c <= 0xFE0F)
        || (0xFE20 <= c && c <= 0xFE2F)
        || c == 0xFEFF
        || c == 0xFFA0
}

fn is_marks_below_11300(c: u32) -> (yes: bool)
    ensures
        yes == marks_below_11300(c),
{
    c == 0x101FD
        || c == 0x102E0
        || (0x10376 <= c && c <= 0x1037A)
        || (0x10A01 <= c && c <= 0x10A03)
        || (0x10A05 <= c && c <= 0x10A06)
        || (0x10A0C <= c && c <= 0x10A0F)
        || (0x10A38 <= c && c <= 0x10A3A)
        || c == 0x10A3F
        || (0x10AE5 <= c && c <= 0x10AE6)
        || (0x10D24 <= c && c <= 0x10D27)
        || (0x10D69 <= c && c <= 0x10D6D)
        || (0x10EAB <= c && c <= 0x10EAC)
        || (0x10ECB <= c && c <= 0x10ECF)
        || (0x10EF0 <= c && c <= 0x10EFF)
        || (0x10F46 <= c && c <= 0x10F50)
        || (0x10F82 <= c && c <= 0x10F85)
        || c == 0x11001
        || (0x11038 <= c && c <= 0x11046)
        || c == 0x11070
        || (0x11073 <= c && c <= 0x11074)
        || (0x1107F <= c && c <= 0x11081)
        || (0x110B3 <= c && c <= 0x110B6)
        || (0x110B9 <= c && c <= 0x110BA)
        || c == 0x110C2
        || (0x11100 <= c && c <= 0x11102)
        || (0x11127 <= c && c <= 0x1112B)
        || (0x1112D <= c && c <= 0x11134)
        || c == 0x11173
        || (0x11180 <= c && c <= 0x11181)
        || (0x111B6 <= c && c <= 0x111BE)
        || c == 0x111C0
        || (0x111C2 <= c && c <= 0x111C3)
        || (0x111C9 <= c && c <= 0x111CC)
        || c == 0x111CF
        || (0x1122F <= c && c <= 0x11231)
        || (0x11234 <= c && c <= 0x11237)
        || c == 0x1123E
        || c == 0x11241
        || c == 0x112DF
        || (0x112E3 <= c && c <= 0x112EA)
}

fn is_marks_above(c: u32) -> (yes: bool)
    ensures
        yes == marks_above(c),
{
    (0x11300 <= c && c <= 0x11301)
        || (0x1133B <= c && c <= 0x1133C)
        || c == 0x1133E
        || c == 0x11340
        || c == 0x1134D
        || c == 0x11357
        || (0x11366 <= c && c <= 0x1136C)
        || (0x11370 <= c && c <= 0x11374)
        || c == 0x113B8
        || (0x113BB <= c && c <= 0x113C0)
        || c == 0x113C2
        || c == 0x113C5
        || (0x113C7 <= c && c <= 0x113C9)
        || (0x113CE <= c && c <= 0x113D2)
        || (0x113E1 <= c && c <= 0x113E2)
        || (0x11438 <= c && c <= 0x1143F)
        || (0x11442 <= c && c <= 0x11444)
        || c == 0x11446
        || c == 0x1145E
        || c == 0x114B0
        || (0x114B3 <= c && c <= 0x114B8)
        || c == 0x114BA
        || c == 0x114BD
        || (0x114BF <= c && c <= 0x114C0)
        || (0x114C2 <= c && c <= 0x114C3)
        || c == 0x115AF
        || (0x115B2 <= c && c <= 0x115B5)
        || (0x115BC <= c && c <= 0x115BD)
        || (0x115BF <= c && c <= 0x115C0)
        || (0x115DC <= c && c <= 0x115DD)
        || (0x11633 <= c && c <= 0x1163A)
        || c == 0x1163D
        || (0x1163F <= c && c <= 0x11640)
        || c == 0x116AB
        || c == 0x116AD
        || (0x116B0 <= c && c <= 0x116B7)
        || (0x1171D <= c && c <= 0x1171F)
        || (0x11722 <= c && c <= 0x11725)
        || (0x11727 <= c && c <= 0x1172B)
        || (0x1182F <= c && c <= 0x11837)
        || (0x11839 <= c && c <= 0x1183A)
        || c == 0x11930
        || (0x1193B <= c && c <= 0x1193F)
        || c == 0x11941
        || c == 0x11943
        || (0x119D4 <= c && c <= 0x119D7)
        || (0x119DA <= c && c <= 0x119DB)
        || c == 0x119E0
        || (0x11A01 <= c && c <= 0x11A0A)
        || (0x11A33 <= c && c <= 0x11A38)
        || (0x11A3B <= c && c <= 0x11A3E)
        || c == 0x11A47
        || (0x11A51 <= c && c <= 0x11A56)
        || (0x11A59 <= c && c <= 0x11A5B)
        || (0x11A84 <= c && c <= 0x11A96)
        || (0x11A98 <= c && c <= 0x11A99)
        || c == 0x11B60
        || (0x11B62 <= c && c <= 0x11B64)
        || c == 0x11B66
        || (0x11C30 <= c && c <= 0x11C36)
        || (0x11C38 <= c && c <= 0x11C3D)
        || c == 0x11C3F
        || (0x11C92 <= c && c <= 0x11CA7)
        || (0x11CAA <= c && c <= 0x11CB0)
        || (0x11CB2 <= c && c <= 0x11CB3)
        || (0x11CB5 <= c && c <= 0x11CB6)
        || (0x11D31 <= c && c <= 0x11D36)
        || c == 0x11D3A
        || (0x11D3C <= c && c <= 0x11D3D)
        || (0x11D3F <= c && c <= 0x11D47)
        || (0x11D90 <= c && c <= 0x11D91)
        || c == 0x11D95
        || c == 0x11D97
        || c == 0x11DF0
        || (0x11EF3 <= c && c <= 0x11EF4)
        || (0x11F00 <= c && c <= 0x11F02)
        || (0x11F36 <= c && c <= 0x11F3A)
        || (0x11F40 <= c && c <= 0x11F42)
        || c == 0x11F5A
        || c == 0x13440
        || (0x13447 <= c && c <= 0x13455)
        || (0x1611E <= c && c <= 0x16129)
        || (0x1612D <= c && c <= 0x1612F)
        || (0x16AF0 <= c && c <= 0x16AF4)
        || (0x16B30 <= c && c <= 0x16B36)
        || c == 0x16F4F
        || (0x16F8F <= c && c <= 0x16F92)
        || c == 0x16FE4
        || (0x16FF0 <= c && c <= 0x16FF1)
        || (0x1BC9D <= c && c <= 0x1BC9E)
        || (0x1BCA0 <= c && c <= 0x1BCA3)
        || (0x1CF00 <= c && c <= 0x1CF2D)
        || (0x1CF30 <= c && c <= 0x1CF46)
        || (0x1D127 <= c && c <= 0x1D128)
        || (0x1D165 <= c && c <= 0x1D169)
        || (0x1D16D <= c && c <= 0x1D182)
        || (0x1D185 <= c && c <= 0x1D18B)
        || (0x1D1AA <= c && c <= 0x1D1AD)
        || (0x1D242 <= c && c <= 0x1D244)
        || (0x1D250 <= c && c <= 0x1D252)
        || (0x1D25B <= c && c <= 0x1D25C)
        || c == 0x1D25F
        || (0x1D280 <= c && c <= 0x1D281)
        || (0x1DA00 <= c && c <= 0x1DA36)
        || (0x1DA3B <= c && c <= 0x1DA6C)
        || c == 0x1DA75
        || c == 0x1DA84
        || (0x1DA9B <= c && c <= 0x1DA9F)
        || (0x1DAA1 <= c && c <= 0x1DAAF)
        || (0x1E000 <= c && c <= 0x1E006)
        || (0x1E008 <= c && c <= 0x1E018)
        || (0x1E01B <= c && c <= 0x1E021)
        || (0x1E023 <= c && c <= 0x1E024)
        || (0x1E026 <= c && c <= 0x1E02A)
        || c == 0x1E08F
        || (0x1E130 <= c && c <= 0x1E136)
        || c == 0x1E2AE
        || (0x1E2EC <= c && c <= 0x1E2EF)
        || (0x1E4EC <= c && c <= 0x1E4EF)
        || (0x1E5EE <= c && c <= 0x1E5EF)
        || c == 0x1E6E3
        || c == 0x1E6E6
        || (0x1E6EE <= c && c <= 0x1E6EF)
        || c == 0x1E6F5
        || (0x1E8D0 <= c && c <= 0x1E8D6)
        || (0x1E944 <= c && c <= 0x1E94A)
        || (0xE0000 <= c && c <= 0xE0FFF)
}

fn is_zero_width(c: u32) -> (yes: bool)
    ensures
        yes == zero_width(c),
{
    is_marks_below_0900(c) || is_marks_below_0e00(c) || is_marks_below_2000(c) || is_marks_below_10000(c) || is_marks_below_11300(c) || is_marks_above(c)
}

fn is_wide_below_2e80(c: u32) -> (yes: bool)
    ensures
        yes == wide_below_2e80(c),
{
    (0x1100 <= c && c <= 0x115F)
        || (0x231A <= c && c <= 0x231B)
        || (0x2329 <= c && c <= 0x232A)
        || (0x23E9 <= c && c <= 0x23EC)
        || c == 0x23F0
        || c == 0x23F3
        || (0x25FD <= c && c <= 0x25FE)
        || (0x2614 <= c && c <= 0x2615)
        || (0x2630 <= c && c <= 0x2637)
        || (0x2648 <= c && c <= 0x2653)
        || c == 0x267F
        || (0x268A <= c && c <= 0x268F)
        || c == 0x2693
        || c == 0x26A1
        || (0x26AA <= c && c <= 0x26AB)
        || (0x26BD <= c && c <= 0x26BE)
        || (0x26C4 <= c && c <= 0x26C5)
        || c == 0x26CE
        || c == 0x26D4
        || c == 0x26EA
        || (0x26F2 <= c && c <= 0x26F3)
        || c == 0x26F5
        || c == 0x26FA
        || c == 0x26FD
        || c == 0x2705
        || (0x270A <= c && c <= 0x270B)
        || c == 0x2728
        || c == 0x274C
        || c == 0x274E
        || (0x2753 <= c && c <= 0x2755)
        || c == 0x2757
        || (0x2795 <= c && c <= 0x2797)
        || c == 0x27B0
        || c == 0x27BF
        || (0x2B1B <= c && c <= 0x2B1C)
        || c == 0x2B50
        || c == 0x2B55
}

fn is_wide_below_10000(c: u32) -> (yes: bool)
    ensures
        yes == wide_below_10000(c),
{
    (0x2E80 <= c && c <= 0x2E99)
        || (0x2E9B <= c && c <= 0x2EF3)
        || (0x2F00 <= c && c <= 0x2FD5)
        || (0x2FF0 <= c && c <= 0x3029)
        || (0x3030 <= c && c <= 0x303E)
        || (0x3041 <= c && c <= 0x3096)
        || (0x309B <= c && c <= 0x30FF)
        || (0x3105 <= c && c <= 0x312F)
        || (0x3131 <= c && c <= 0x3163)
        || (0x3165 <= c && c <= 0x318E)
        || (0x3190 <= c && c <= 0x31E5)
        || (0x31EF <= c && c <= 0x321E)
        || (0x3220 <= c && c <= 0x3247)
        || (0x3250 <= c && c <= 0xA48C)
        || (0xA490 <= c && c <= 0xA4C6)
        || (0xA960 <= c && c <= 0xA97C)
        || (0xAC00 <= c && c <= 0xD7A3)
        || (0xF900 <= c && c <= 0xFAFF)
        || (0xFE10 <= c && c <= 0xFE19)
        || (0xFE30 <= c && c <= 0xFE52)
        || (0xFE54 <= c && c <= 0xFE66)
        || (0xFE68 <= c && c <= 0xFE6B)
        || (0xFF01 <= c && c <= 0xFF60)
        || (0xFFE0 <= c && c <= 0xFFE6)
}

fn is_wide_above(c: u32) -> (yes: bool)
    ensures
        yes == wide_above(c),
{
    (0x16FE0 <= c && c <= 0x16FE3)
        || (0x16FF2 <= c && c <= 0x16FF6)
        || (0x17000 <= c && c <= 0x18CDA)
        || (0x18CFF <= c && c <= 0x18D20)
        || (0x18D80 <= c && c <= 0x18DF2)
        || (0x18E00 <= c && c <= 0x19191)
        || (0x191A0 <= c && c <= 0x191D2)
        || (0x1AFF0 <= c && c <= 0x1AFF3)
        || (0x1AFF5 <= c && c <= 0x1AFFB)
        || (0x1AFFD <= c && c <= 0x1AFFE)
        || (0x1B000 <= c && c <= 0x1B128)
        || c == 0x1B132
        || (0x1B150 <= c && c <= 0x1B152)
        || c == 0x1B155
        || (0x1B164 <= c && c <= 0x1B168)
        || (0x1B170 <= c && c <= 0x1B2FB)
        || (0x1D300 <= c && c <= 0x1D356)
        || (0x1D360 <= c && c <= 0x1D376)
        || c == 0x1F004
        || c == 0x1F0CF
        || c == 0x1F18E
        || (0x1F191 <= c && c <= 0x1F19A)
        || c == 0x1F1AE
        || (0x1F200 <= c && c <= 0x1F202)
        || (0x1F210 <= c && c <= 0x1F23B)
        || (0x1F240 <= c && c <= 0x1F248)
        || (0x1F250 <= c && c <= 0x1F251)
        || (0x1F260 <= c && c <= 0x1F265)
        || (0x1F300 <= c && c <= 0x1F320)
        || (0x1F32D <= c && c <= 0x1F335)
        || (0x1F337 <= c && c <= 0x1F37C)
        || (0x1F37E <= c && c <= 0x1F393)
        || (0x1F3A0 <= c && c <= 0x1F3CA)
        || (0x1F3CF <= c && c <= 0x1F3D3)
        || (0x1F3E0 <= c && c <= 0x1F3F0)
        || c == 0x1F3F4
        || (0x1F3F8 <= c && c <= 0x1F43E)
        || c == 0x1F440
        || (0x1F442 <= c && c <= 0x1F4FC)
        || (0x1F4FF <= c && c <= 0x1F53D)
        || (0x1F54B <= c && c <= 0x1F54E)
        || (0x1F550 <= c && c <= 0x1F567)
        || c == 0x1F57A
        || (0x1F595 <= c && c <= 0x1F596)
        || c == 0x1F5A4
        || (0x1F5FB <= c && c <= 0x1F64F)
        || (0x1F680 <= c && c <= 0x1F6C5)
        || c == 0x1F6CC
        || (0x1F6D0 <= c && c <= 0x1F6D2)
        || (0x1F6D5 <= c && c <= 0x1F6D9)
        || (0x1F6DC <= c && c <= 0x1F6DF)
        || (0x1F6EB <= c && c <= 0x1F6EC)
        || (0x1F6F4 <= c && c <= 0x1F6FC)
        || c == 0x1F7DA
        || (0x1F7E0 <= c && c <= 0x1F7EB)
        || c == 0x1F7F0
        || (0x1F90C <= c && c <= 0x1F93A)
        || (0x1F93C <= c && c <= 0x1F945)
        || (0x1F947 <= c && c <= 0x1F9FF)
        || (0x1FA70 <= c && c <= 0x1FA7C)
        || (0x1FA80 <= c && c <= 0x1FAC6)
        || c == 0x1FAC8
        || (0x1FACC <= c && c <= 0x1FADD)
        || (0x1FADF <= c && c <= 0x1FAEB)
        || (0x1FAEF <= c && c <= 0x1FAFA)
        || (0x20000 <= c && c <= 0x2FFFD)
        || (0x30000 <= c && c <= 0x3FFFD)
}

fn is_double_width(c: u32) -> (yes: bool)
    ensures
        yes == double_width(c),
{
    is_wide_below_2e80(c) || is_wide_below_10000(c) || is_wide_above(c)
}

/// Cells that a text counts for: as many as it occupies, as far as a machine
/// word can count them.
pub open spec fn shown_width(s: Seq<char>) -> nat {
    if width(s) <= usize::MAX {
        width(s)
    } else {
        usize::MAX as nat
    }
}

/// Terminal cells that `text` occupies: wide characters count double,
/// combining marks and zero-width joiners count for nothing.
pub fn display_width(text: &str) -> (out: usize)
    ensures
        out == shown_width(text@),
{
    let chars = chars_of(text);
    let mut total: usize = 0;
    let mut i: usize = 0;
    assert(chars@.take(0) =~= Seq::empty());
    while i < chars.len()
        invariant
            i <= chars@.len(),
            total == shown_width(chars@.take(i as int)),
        decreases chars.len() - i,
    {
        assert(chars@.take(i + 1).drop_last() =~= chars@.take(i as int));
        let code = chars[i] as u32;
        let step: usize = if is_zero_width(code) {
            0
        } else if is_double_width(code) {
            2
        } else {
            1
        };
        total = total.saturating_add(step);
        i += 1;
    }
    assert(chars@.take(chars@.len() as int) =~= chars@);
    total
}

/// The width of a text is that of its parts.
pub proof fn law_width_adds(a: Seq<char>, b: Seq<char>)
    ensures
        width(a + b) == width(a) + width(b),
    decreases b.len(),
{
    if b.len() == 0 {
        assert(a + b =~= a);
    } else {
        law_width_adds(a, b.drop_last());
        assert((a + b).drop_last() =~= a + b.drop_last());
    }
}

/// A printable ASCII character takes one cell, a Chinese ideograph, a kana and
/// a Hangul syllable two, a combining diacritic none.
pub proof fn law_cells(c: char)
    ensures
        0x20 <= c as int <= 0x7e ==> width(seq![c]) == 1,
        0x4e00 <= c as int <= 0x9fff ==> width(seq![c]) == 2,
        0x3041 <= c as int <= 0x3096 ==> width(seq![c]) == 2,
        0xac00 <= c as int <= 0xd7a3 ==> width(seq![c]) == 2,
        0x1f600 <= c as int <= 0x1f64f ==> width(seq![c]) == 2,
        0x300 <= c as int <= 0x36f ==> width(seq![c]) == 0,
        c as int == 0x200d ==> width(seq![c]) == 0,
{
    let none = Seq::<char>::empty();
    assert(seq![c].drop_last() =~= none);
    assert(width(none) == 0);
    assert(width(seq![c]) == cells(c));
}

} // verus!
