use mbf_bam_quantifier::bam_ext::{Cigar, Record};

fn aligned(pos: i64, cigar: Vec<Cigar>) -> Record {
    Record {
        qname: Vec::new(),
        tid: 0,
        pos,
        mapq: 0,
        reverse: false,
        secondary: false,
        first_in_template: false,
        last_in_template: false,
        cigar,
        seq: Vec::new(),
        aux: Vec::new(),
    }
}

#[test]
fn spliced_reads() {
    let blocks = aligned(16050676, vec![Cigar::SoftClip(6), Cigar::Match(45)]).blocks();
    assert!(blocks[0] == (16050676, 16050721));

    let blocks = aligned(16096878, vec![Cigar::Match(7), Cigar::Del(2), Cigar::Match(44)]).blocks();
    assert!(blocks[0] == (16096878, 16096885));
    assert!(blocks[1] == (16096887, 16096931));

    let blocks = aligned(16097145, vec![Cigar::Match(29), Cigar::Del(2), Cigar::Match(22)]).blocks();
    assert!(blocks[0] == (16097145, 16097174));
    assert!(blocks[1] == (16097176, 16097198));

    let blocks = aligned(16117350, vec![Cigar::Match(51)]).blocks();
    assert!(blocks[0] == (16117350, 16117401));

    let blocks = aligned(16118483, vec![Cigar::Match(51)]).blocks();
    assert!(blocks[0] == (16118483, 16118534));

    let blocks = aligned(16118499, vec![Cigar::Match(51)]).blocks();
    assert!(blocks[0] == (16118499, 16118550));

    let blocks = aligned(16118499, vec![Cigar::Match(51)]).blocks();
    assert!(blocks[0] == (16118499, 16118550));

    let blocks = aligned(16118499, vec![Cigar::Match(51)]).blocks();
    assert!(blocks[0] == (16118499, 16118550));

    let blocks = aligned(16123411, vec![Cigar::Match(51)]).blocks();
    assert!(blocks[0] == (16123411, 16123462));

    let blocks = aligned(16123417, vec![Cigar::SoftClip(6), Cigar::Match(45)]).blocks();
    assert!(blocks[0] == (16123417, 16123462));

    let blocks = aligned(16165860, vec![Cigar::Match(41), Cigar::SoftClip(10)]).blocks();
    assert!(blocks[0] == (16165860, 16165901));

    let blocks = aligned(16180871, vec![Cigar::Match(51)]).blocks();
    assert!(blocks[0] == (16180871, 16180922));

    let blocks = aligned(16189705, vec![Cigar::Match(51)]).blocks();
    assert!(blocks[0] == (16189705, 16189756));

    let blocks = aligned(16231271, vec![Cigar::Match(51)]).blocks();
    assert!(blocks[0] == (16231271, 16231322));

    let blocks = aligned(16237657, vec![Cigar::Match(51)]).blocks();
    assert!(blocks[0] == (16237657, 16237708));

    let blocks = aligned(16255012, vec![Cigar::SoftClip(9), Cigar::Match(42)]).blocks();
    assert!(blocks[0] == (16255012, 16255054));

    let blocks = aligned(16255391, vec![Cigar::Match(51)]).blocks();
    assert!(blocks[0] == (16255391, 16255442));

    let blocks = aligned(16255392, vec![Cigar::Match(50), Cigar::SoftClip(1)]).blocks();
    assert!(blocks[0] == (16255392, 16255442));

    let blocks = aligned(16256084, vec![Cigar::Match(45), Cigar::SoftClip(6)]).blocks();
    assert!(blocks[0] == (16256084, 16256129));

    let blocks = aligned(16256224, vec![Cigar::SoftClip(3), Cigar::Match(48)]).blocks();
    assert!(blocks[0] == (16256224, 16256272));

    let blocks = aligned(16325199, vec![Cigar::Match(42), Cigar::SoftClip(9)]).blocks();
    assert!(blocks[0] == (16325199, 16325241));

    let blocks = aligned(16352865, vec![Cigar::SoftClip(13), Cigar::Match(38)]).blocks();
    assert!(blocks[0] == (16352865, 16352903));

    let blocks = aligned(16352968, vec![Cigar::Match(44), Cigar::SoftClip(7)]).blocks();
    assert!(blocks[0] == (16352968, 16353012));

    let blocks = aligned(16414998, vec![Cigar::SoftClip(5), Cigar::Match(46)]).blocks();
    assert!(blocks[0] == (16414998, 16415044));

    let blocks = aligned(17031591, vec![Cigar::Match(23), Cigar::Ins(4), Cigar::Match(24)]).blocks();
    assert!(blocks[0] == (17031591, 17031614));
    assert!(blocks[1] == (17031614, 17031638));

    let blocks = aligned(17057382, vec![Cigar::Match(18), Cigar::Ins(1), Cigar::Match(32)]).blocks();
    assert!(blocks[0] == (17057382, 17057400));
    assert!(blocks[1] == (17057400, 17057432));

    let blocks = aligned(17092766, vec![Cigar::Match(17), Cigar::RefSkip(2183), Cigar::Match(34)]).blocks();
    assert!(blocks[0] == (17092766, 17092783));
    assert!(blocks[1] == (17094966, 17095000));

    let blocks = aligned(17092782, vec![Cigar::Match(1), Cigar::RefSkip(2183), Cigar::Match(50)]).blocks();
    assert!(blocks[0] == (17092782, 17092783));
    assert!(blocks[1] == (17094966, 17095016));

    let blocks = aligned(17092782, vec![Cigar::Match(1), Cigar::RefSkip(2183), Cigar::Match(50)]).blocks();
    assert!(blocks[0] == (17092782, 17092783));
    assert!(blocks[1] == (17094966, 17095016));

    let blocks = aligned(17137287, vec![Cigar::SoftClip(9), Cigar::Match(33), Cigar::SoftClip(9)]).blocks();
    assert!(blocks[0] == (17137287, 17137320));

    let blocks = aligned(17306238, vec![Cigar::SoftClip(2), Cigar::Match(48), Cigar::SoftClip(1)]).blocks();
    assert!(blocks[0] == (17306238, 17306286));

    let blocks = aligned(17561868, vec![Cigar::SoftClip(4), Cigar::Match(45), Cigar::SoftClip(2)]).blocks();
    assert!(blocks[0] == (17561868, 17561913));

    let blocks = aligned(17566078, vec![Cigar::Match(41), Cigar::RefSkip(11832), Cigar::Match(10)]).blocks();
    assert!(blocks[0] == (17566078, 17566119));
    assert!(blocks[1] == (17577951, 17577961));

    let blocks = aligned(17566108, vec![Cigar::Match(11), Cigar::RefSkip(11832), Cigar::Match(25), Cigar::RefSkip(710), Cigar::Match(15)]).blocks();
    assert!(blocks[0] == (17566108, 17566119));
    assert!(blocks[1] == (17577951, 17577976));
    assert!(blocks[2] == (17578686, 17578701));

    let blocks = aligned(17566111, vec![Cigar::Match(8), Cigar::RefSkip(11832), Cigar::Match(25), Cigar::RefSkip(710), Cigar::Match(18)]).blocks();
    assert!(blocks[0] == (17566111, 17566119));
    assert!(blocks[1] == (17577951, 17577976));
    assert!(blocks[2] == (17578686, 17578704));

    let blocks = aligned(17566111, vec![Cigar::Match(8), Cigar::RefSkip(11832), Cigar::Match(25), Cigar::RefSkip(710), Cigar::Match(18)]).blocks();
    assert!(blocks[0] == (17566111, 17566119));
    assert!(blocks[1] == (17577951, 17577976));
    assert!(blocks[2] == (17578686, 17578704));

    let blocks = aligned(17566111, vec![Cigar::Match(8), Cigar::RefSkip(11832), Cigar::Match(25), Cigar::RefSkip(710), Cigar::Match(18)]).blocks();
    assert!(blocks[0] == (17566111, 17566119));
    assert!(blocks[1] == (17577951, 17577976));
    assert!(blocks[2] == (17578686, 17578704));

    let blocks = aligned(17566111, vec![Cigar::Match(8), Cigar::RefSkip(11832), Cigar::Match(25), Cigar::RefSkip(710), Cigar::Match(18)]).blocks();
    assert!(blocks[0] == (17566111, 17566119));
    assert!(blocks[1] == (17577951, 17577976));
    assert!(blocks[2] == (17578686, 17578704));

    let blocks = aligned(17566112, vec![Cigar::Match(7), Cigar::RefSkip(11832), Cigar::Match(25), Cigar::RefSkip(710), Cigar::Match(19)]).blocks();
    assert!(blocks[0] == (17566112, 17566119));
    assert!(blocks[1] == (17577951, 17577976));
    assert!(blocks[2] == (17578686, 17578705));

    let blocks = aligned(17566113, vec![Cigar::Match(6), Cigar::RefSkip(11832), Cigar::Match(25), Cigar::RefSkip(710), Cigar::Match(20)]).blocks();
    assert!(blocks[0] == (17566113, 17566119));
    assert!(blocks[1] == (17577951, 17577976));
    assert!(blocks[2] == (17578686, 17578706));

    let blocks = aligned(17566113, vec![Cigar::Match(6), Cigar::RefSkip(11832), Cigar::Match(25), Cigar::RefSkip(710), Cigar::Match(20)]).blocks();
    assert!(blocks[0] == (17566113, 17566119));
    assert!(blocks[1] == (17577951, 17577976));
    assert!(blocks[2] == (17578686, 17578706));

    let blocks = aligned(17579733, vec![Cigar::SoftClip(1), Cigar::Match(44), Cigar::RefSkip(1467), Cigar::Match(6)]).blocks();
    assert!(blocks[0] == (17579733, 17579777));
    assert!(blocks[1] == (17581244, 17581250));

    let blocks = aligned(17581369, vec![Cigar::Match(2), Cigar::RefSkip(1514), Cigar::Match(48), Cigar::RefSkip(95), Cigar::Match(1)]).blocks();
    assert!(blocks[0] == (17581369, 17581371));
    assert!(blocks[1] == (17582885, 17582933));
    assert!(blocks[2] == (17583028, 17583029));

    let blocks = aligned(17581370, vec![Cigar::Match(1), Cigar::RefSkip(1514), Cigar::Match(48), Cigar::RefSkip(95), Cigar::Match(2)]).blocks();
    assert!(blocks[0] == (17581370, 17581371));
    assert!(blocks[1] == (17582885, 17582933));
    assert!(blocks[2] == (17583028, 17583030));

    let blocks = aligned(17581370, vec![Cigar::Match(1), Cigar::RefSkip(1514), Cigar::Match(48), Cigar::RefSkip(95), Cigar::Match(2)]).blocks();
    assert!(blocks[0] == (17581370, 17581371));
    assert!(blocks[1] == (17582885, 17582933));
    assert!(blocks[2] == (17583028, 17583030));

    let blocks = aligned(17582911, vec![Cigar::SoftClip(1), Cigar::Match(22), Cigar::RefSkip(95), Cigar::Match(28)]).blocks();
    assert!(blocks[0] == (17582911, 17582933));
    assert!(blocks[1] == (17583028, 17583056));

    let blocks = aligned(17588621, vec![Cigar::Match(37), Cigar::RefSkip(538), Cigar::Match(13), Cigar::SoftClip(1)]).blocks();
    assert!(blocks[0] == (17588621, 17588658));
    assert!(blocks[1] == (17589196, 17589209));

    let blocks = aligned(17588621, vec![Cigar::Match(37), Cigar::RefSkip(538), Cigar::Match(13), Cigar::SoftClip(1)]).blocks();
    assert!(blocks[0] == (17588621, 17588658));
    assert!(blocks[1] == (17589196, 17589209));

    let blocks = aligned(17588621, vec![Cigar::Match(37), Cigar::RefSkip(538), Cigar::Match(13), Cigar::SoftClip(1)]).blocks();
    assert!(blocks[0] == (17588621, 17588658));
    assert!(blocks[1] == (17589196, 17589209));

    let blocks = aligned(17591770, vec![Cigar::SoftClip(1), Cigar::Match(25), Cigar::Del(1), Cigar::Match(25)]).blocks();
    assert!(blocks[0] == (17591770, 17591795));
    assert!(blocks[1] == (17591796, 17591821));

    let blocks = aligned(17593855, vec![Cigar::Match(24), Cigar::Del(1), Cigar::Match(24), Cigar::SoftClip(3)]).blocks();
    assert!(blocks[0] == (17593855, 17593879));
    assert!(blocks[1] == (17593880, 17593904));

    let blocks = aligned(17593863, vec![Cigar::Match(16), Cigar::Del(1), Cigar::Match(28), Cigar::SoftClip(7)]).blocks();
    assert!(blocks[0] == (17593863, 17593879));
    assert!(blocks[1] == (17593880, 17593908));

    let blocks = aligned(17596476, vec![Cigar::SoftClip(11), Cigar::Match(7), Cigar::Ins(1), Cigar::Match(32)]).blocks();
    assert!(blocks[0] == (17596476, 17596483));
    assert!(blocks[1] == (17596483, 17596515));

    let blocks = aligned(17624012, vec![Cigar::SoftClip(5), Cigar::Match(9), Cigar::RefSkip(1892), Cigar::Match(37)]).blocks();
    assert!(blocks[0] == (17624012, 17624021));
    assert!(blocks[1] == (17625913, 17625950));

    let blocks = aligned(17624012, vec![Cigar::SoftClip(2), Cigar::Match(9), Cigar::RefSkip(1892), Cigar::Match(40)]).blocks();
    assert!(blocks[0] == (17624012, 17624021));
    assert!(blocks[1] == (17625913, 17625953));

    let blocks = aligned(31796700, vec![Cigar::SoftClip(1), Cigar::Match(7), Cigar::Del(3), Cigar::Match(19), Cigar::RefSkip(2285), Cigar::Match(24)]).blocks();
    assert!(blocks[0] == (31796700, 31796707));
    assert!(blocks[1] == (31796710, 31796729));
    assert!(blocks[2] == (31799014, 31799038));

    let blocks = aligned(36722692, vec![Cigar::Match(14), Cigar::RefSkip(799), Cigar::Match(28), Cigar::RefSkip(13881), Cigar::Match(7), Cigar::SoftClip(2)]).blocks();
    assert!(blocks[0] == (36722692, 36722706));
    assert!(blocks[1] == (36723505, 36723533));
    assert!(blocks[2] == (36737414, 36737421));

    let blocks = aligned(44587963, vec![Cigar::SoftClip(4), Cigar::Match(21), Cigar::RefSkip(1696), Cigar::Match(23), Cigar::RefSkip(2331), Cigar::Match(3)]).blocks();
    assert!(blocks[0] == (44587963, 44587984));
    assert!(blocks[1] == (44589680, 44589703));
    assert!(blocks[2] == (44592034, 44592037));
}

#[test]
fn test_introns() {
    let introns = aligned(16050676, vec![Cigar::SoftClip(6), Cigar::Match(45)]).introns();
    assert_eq!(introns.len(), 0);

    let introns = aligned(16096878, vec![Cigar::Match(7), Cigar::Del(2), Cigar::Match(44)]).introns();
    assert_eq!(introns.len(), 0);

    let introns = aligned(16097145, vec![Cigar::Match(29), Cigar::Del(2), Cigar::Match(22)]).introns();
    assert_eq!(introns.len(), 0);

    let introns = aligned(16117350, vec![Cigar::Match(51)]).introns();
    assert_eq!(introns.len(), 0);

    let introns = aligned(16118483, vec![Cigar::Match(51)]).introns();
    assert_eq!(introns.len(), 0);

    let introns = aligned(16118499, vec![Cigar::Match(51)]).introns();
    assert_eq!(introns.len(), 0);

    let introns = aligned(16118499, vec![Cigar::Match(51)]).introns();
    assert_eq!(introns.len(), 0);

    let introns = aligned(16118499, vec![Cigar::Match(51)]).introns();
    assert_eq!(introns.len(), 0);

    let introns = aligned(16123411, vec![Cigar::Match(51)]).introns();
    assert_eq!(introns.len(), 0);

    let introns = aligned(16123417, vec![Cigar::SoftClip(6), Cigar::Match(45)]).introns();
    assert_eq!(introns.len(), 0);

    let introns = aligned(16165860, vec![Cigar::Match(41), Cigar::SoftClip(10)]).introns();
    assert_eq!(introns.len(), 0);

    let introns = aligned(16180871, vec![Cigar::Match(51)]).introns();
    assert_eq!(introns.len(), 0);

    let introns = aligned(16189705, vec![Cigar::Match(51)]).introns();
    assert_eq!(introns.len(), 0);

    let introns = aligned(16231271, vec![Cigar::Match(51)]).introns();
    assert_eq!(introns.len(), 0);

    let introns = aligned(16237657, vec![Cigar::Match(51)]).introns();
    assert_eq!(introns.len(), 0);

    let introns = aligned(16255012, vec![Cigar::SoftClip(9), Cigar::Match(42)]).introns();
    assert_eq!(introns.len(), 0);

    let introns = aligned(16255391, vec![Cigar::Match(51)]).introns();
    assert_eq!(introns.len(), 0);

    let introns = aligned(16255392, vec![Cigar::Match(50), Cigar::SoftClip(1)]).introns();
    assert_eq!(introns.len(), 0);

    let introns = aligned(16256084, vec![Cigar::Match(45), Cigar::SoftClip(6)]).introns();
    assert_eq!(introns.len(), 0);

    let introns = aligned(16256224, vec![Cigar::SoftClip(3), Cigar::Match(48)]).introns();
    assert_eq!(introns.len(), 0);

    let introns = aligned(16325199, vec![Cigar::Match(42), Cigar::SoftClip(9)]).introns();
    assert_eq!(introns.len(), 0);

    let introns = aligned(16352865, vec![Cigar::SoftClip(13), Cigar::Match(38)]).introns();
    assert_eq!(introns.len(), 0);

    let introns = aligned(16352968, vec![Cigar::Match(44), Cigar::SoftClip(7)]).introns();
    assert_eq!(introns.len(), 0);

    let introns = aligned(16414998, vec![Cigar::SoftClip(5), Cigar::Match(46)]).introns();
    assert_eq!(introns.len(), 0);

    let introns = aligned(17031591, vec![Cigar::Match(23), Cigar::Ins(4), Cigar::Match(24)]).introns();
    assert_eq!(introns.len(), 0);

    let introns = aligned(17057382, vec![Cigar::Match(18), Cigar::Ins(1), Cigar::Match(32)]).introns();
    assert_eq!(introns.len(), 0);

    let introns = aligned(17092766, vec![Cigar::Match(17), Cigar::RefSkip(2183), Cigar::Match(34)]).introns();
    assert_eq!(introns.len(), 1);
    assert_eq!(introns[0], (17092783, 17094966));

    let introns = aligned(17092782, vec![Cigar::Match(1), Cigar::RefSkip(2183), Cigar::Match(50)]).introns();
    assert_eq!(introns.len(), 1);
    assert_eq!(introns[0], (17092783, 17094966));

    let introns = aligned(17092782, vec![Cigar::Match(1), Cigar::RefSkip(2183), Cigar::Match(50)]).introns();
    assert_eq!(introns.len(), 1);
    assert_eq!(introns[0], (17092783, 17094966));

    let introns = aligned(17137287, vec![Cigar::SoftClip(9), Cigar::Match(33), Cigar::SoftClip(9)]).introns();
    assert_eq!(introns.len(), 0);

    let introns = aligned(17306238, vec![Cigar::SoftClip(2), Cigar::Match(48), Cigar::SoftClip(1)]).introns();
    assert_eq!(introns.len(), 0);

    let introns = aligned(17561868, vec![Cigar::SoftClip(4), Cigar::Match(45), Cigar::SoftClip(2)]).introns();
    assert_eq!(introns.len(), 0);

    let introns = aligned(17566078, vec![Cigar::Match(41), Cigar::RefSkip(11832), Cigar::Match(10)]).introns();
    assert_eq!(introns.len(), 1);
    assert_eq!(introns[0], (17566119, 17577951));

    let introns = aligned(17566108, vec![Cigar::Match(11), Cigar::RefSkip(11832), Cigar::Match(25), Cigar::RefSkip(710), Cigar::Match(15)]).introns();
    assert_eq!(introns.len(), 2);
    assert_eq!(introns[0], (17566119, 17577951));
    assert_eq!(introns[1], (17577976, 17578686));

    let introns = aligned(17566111, vec![Cigar::Match(8), Cigar::RefSkip(11832), Cigar::Match(25), Cigar::RefSkip(710), Cigar::Match(18)]).introns();
    assert_eq!(introns.len(), 2);
    assert_eq!(introns[0], (17566119, 17577951));
    assert_eq!(introns[1], (17577976, 17578686));

    let introns = aligned(17566111, vec![Cigar::Match(8), Cigar::RefSkip(11832), Cigar::Match(25), Cigar::RefSkip(710), Cigar::Match(18)]).introns();
    assert_eq!(introns.len(), 2);
    assert_eq!(introns[0], (17566119, 17577951));
    assert_eq!(introns[1], (17577976, 17578686));

    let introns = aligned(17566111, vec![Cigar::Match(8), Cigar::RefSkip(11832), Cigar::Match(25), Cigar::RefSkip(710), Cigar::Match(18)]).introns();
    assert_eq!(introns.len(), 2);
    assert_eq!(introns[0], (17566119, 17577951));
    assert_eq!(introns[1], (17577976, 17578686));

    let introns = aligned(17566111, vec![Cigar::Match(8), Cigar::RefSkip(11832), Cigar::Match(25), Cigar::RefSkip(710), Cigar::Match(18)]).introns();
    assert_eq!(introns.len(), 2);
    assert_eq!(introns[0], (17566119, 17577951));
    assert_eq!(introns[1], (17577976, 17578686));

    let introns = aligned(17566112, vec![Cigar::Match(7), Cigar::RefSkip(11832), Cigar::Match(25), Cigar::RefSkip(710), Cigar::Match(19)]).introns();
    assert_eq!(introns.len(), 2);
    assert_eq!(introns[0], (17566119, 17577951));
    assert_eq!(introns[1], (17577976, 17578686));

    let introns = aligned(17566113, vec![Cigar::Match(6), Cigar::RefSkip(11832), Cigar::Match(25), Cigar::RefSkip(710), Cigar::Match(20)]).introns();
    assert_eq!(introns.len(), 2);
    assert_eq!(introns[0], (17566119, 17577951));
    assert_eq!(introns[1], (17577976, 17578686));

    let introns = aligned(17566113, vec![Cigar::Match(6), Cigar::RefSkip(11832), Cigar::Match(25), Cigar::RefSkip(710), Cigar::Match(20)]).introns();
    assert_eq!(introns.len(), 2);
    assert_eq!(introns[0], (17566119, 17577951));
    assert_eq!(introns[1], (17577976, 17578686));

    let introns = aligned(17579733, vec![Cigar::SoftClip(1), Cigar::Match(44), Cigar::RefSkip(1467), Cigar::Match(6)]).introns();
    assert_eq!(introns.len(), 1);
    assert_eq!(introns[0], (17579777, 17581244));

    let introns = aligned(17581369, vec![Cigar::Match(2), Cigar::RefSkip(1514), Cigar::Match(48), Cigar::RefSkip(95), Cigar::Match(1)]).introns();
    assert_eq!(introns.len(), 2);
    assert_eq!(introns[0], (17581371, 17582885));
    assert_eq!(introns[1], (17582933, 17583028));

    let introns = aligned(17581370, vec![Cigar::Match(1), Cigar::RefSkip(1514), Cigar::Match(48), Cigar::RefSkip(95), Cigar::Match(2)]).introns();
    assert_eq!(introns.len(), 2);
    assert_eq!(introns[0], (17581371, 17582885));
    assert_eq!(introns[1], (17582933, 17583028));

    let introns = aligned(17581370, vec![Cigar::Match(1), Cigar::RefSkip(1514), Cigar::Match(48), Cigar::RefSkip(95), Cigar::Match(2)]).introns();
    assert_eq!(introns.len(), 2);
    assert_eq!(introns[0], (17581371, 17582885));
    assert_eq!(introns[1], (17582933, 17583028));

    let introns = aligned(17582911, vec![Cigar::SoftClip(1), Cigar::Match(22), Cigar::RefSkip(95), Cigar::Match(28)]).introns();
    assert_eq!(introns.len(), 1);
    assert_eq!(introns[0], (17582933, 17583028));

    let introns = aligned(17588621, vec![Cigar::Match(37), Cigar::RefSkip(538), Cigar::Match(13), Cigar::SoftClip(1)]).introns();
    assert_eq!(introns.len(), 1);
    assert_eq!(introns[0], (17588658, 17589196));

    let introns = aligned(17588621, vec![Cigar::Match(37), Cigar::RefSkip(538), Cigar::Match(13), Cigar::SoftClip(1)]).introns();
    assert_eq!(introns.len(), 1);
    assert_eq!(introns[0], (17588658, 17589196));

    let introns = aligned(17588621, vec![Cigar::Match(37), Cigar::RefSkip(538), Cigar::Match(13), Cigar::SoftClip(1)]).introns();
    assert_eq!(introns.len(), 1);
    assert_eq!(introns[0], (17588658, 17589196));

    let introns = aligned(17591770, vec![Cigar::SoftClip(1), Cigar::Match(25), Cigar::Del(1), Cigar::Match(25)]).introns();
    assert_eq!(introns.len(), 0);

    let introns = aligned(17593855, vec![Cigar::Match(24), Cigar::Del(1), Cigar::Match(24), Cigar::SoftClip(3)]).introns();
    assert_eq!(introns.len(), 0);

    let introns = aligned(17593863, vec![Cigar::Match(16), Cigar::Del(1), Cigar::Match(28), Cigar::SoftClip(7)]).introns();
    assert_eq!(introns.len(), 0);

    let introns = aligned(17596476, vec![Cigar::SoftClip(11), Cigar::Match(7), Cigar::Ins(1), Cigar::Match(32)]).introns();
    assert_eq!(introns.len(), 0);

    let introns = aligned(17624012, vec![Cigar::SoftClip(5), Cigar::Match(9), Cigar::RefSkip(1892), Cigar::Match(37)]).introns();
    assert_eq!(introns.len(), 1);
    assert_eq!(introns[0], (17624021, 17625913));

    let introns = aligned(17624012, vec![Cigar::SoftClip(2), Cigar::Match(9), Cigar::RefSkip(1892), Cigar::Match(40)]).introns();
    assert_eq!(introns.len(), 1);
    assert_eq!(introns[0], (17624021, 17625913));

    let introns = aligned(31796700, vec![Cigar::SoftClip(1), Cigar::Match(7), Cigar::Del(3), Cigar::Match(19), Cigar::RefSkip(2285), Cigar::Match(24)]).introns();
    assert_eq!(introns.len(), 1);
    assert_eq!(introns[0], (31796729, 31799014));

    let introns = aligned(36722692, vec![Cigar::Match(14), Cigar::RefSkip(799), Cigar::Match(28), Cigar::RefSkip(13881), Cigar::Match(7), Cigar::SoftClip(2)]).introns();
    assert_eq!(introns.len(), 2);
    assert_eq!(introns[0], (36722706, 36723505));
    assert_eq!(introns[1], (36723533, 36737414));

    let introns = aligned(44587963, vec![Cigar::SoftClip(4), Cigar::Match(21), Cigar::RefSkip(1696), Cigar::Match(23), Cigar::RefSkip(2331), Cigar::Match(3)]).introns();
    assert_eq!(introns.len(), 2);
    assert_eq!(introns[0], (44587984, 44589680));
    assert_eq!(introns[1], (44589703, 44592034));
}
