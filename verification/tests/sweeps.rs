use midpoint_foundry::algorithms::baseline_circle::BaselineCircle;
use midpoint_foundry::algorithms::ellipse::gap_fill_ellipse::GapFillEllipse;
use midpoint_foundry::algorithms::ellipse::midpoint_ellipse::MidpointEllipse;
use midpoint_foundry::algorithms::ellipse::own_fill_ellipse::OwnFillEllipse;
use midpoint_foundry::algorithms::ellipse::virtual_fill_ellipse::VirtualFillEllipse;
use midpoint_foundry::algorithms::gap_fill_circle::GapFillCircle;
use midpoint_foundry::algorithms::line::midpoint_line::MidpointLine;
use midpoint_foundry::algorithms::midpoint_circle::MidpointCircle;
use midpoint_foundry::algorithms::roland_fill_ellipse::RolandFillEllipse;
use midpoint_foundry::algorithms::scanline_circle::ScanlineCircle;
use midpoint_foundry::algorithms::sitaraman_fill_circle::SitaramanFillCircle;
use midpoint_foundry::algorithms::Point;

/// A position-sensitive digest of a point sequence.
fn digest(ps: &[Point]) -> u64 {
    let mut h: u128 = 0;
    for p in ps {
        let x = p.x as u32 as u128;
        let y = p.y as u32 as u128;
        h = (h * 1000003 + x * 65599 + y) % (1u128 << 61);
    }
    h as u64
}

#[test]
fn midpoint_circle_sweep_of_radii() {
    let mut m = MidpointCircle::default();
    m.center_x = 3;
    m.center_y = -4;
    let expected: [(i32, usize, u64); 41] = [
        (0, 8, 1287765237171843920),
        (1, 8, 1887577852988586204),
        (2, 16, 1963110344526120732),
        (3, 24, 791244779227085620),
        (4, 32, 7144011359401264),
        (5, 32, 1327331437375783276),
        (6, 40, 268771456661090508),
        (7, 48, 1968403260556690204),
        (8, 48, 373727724311736548),
        (9, 56, 628428858084876312),
        (10, 64, 2115151050928067388),
        (11, 72, 2030028314545951020),
        (12, 72, 1192150099008000548),
        (13, 80, 450747893926958340),
        (14, 88, 828676448644234312),
        (15, 88, 1983966988505271896),
        (16, 96, 970746733006484864),
        (17, 104, 2101380944130063512),
        (18, 104, 1950130691363617996),
        (19, 112, 913236841783615944),
        (20, 120, 1629284237069465372),
        (21, 128, 688793566963359444),
        (22, 128, 930779571235530540),
        (23, 136, 1373108076172429024),
        (24, 144, 6970421012526304),
        (25, 144, 510184330238685252),
        (26, 152, 1168459447751147096),
        (27, 160, 104471209225841952),
        (28, 168, 1134455437010607972),
        (29, 168, 1519708901191102316),
        (30, 176, 2092249027130411144),
        (31, 184, 226094581716223904),
        (32, 184, 326793641780030656),
        (33, 192, 201636484986806448),
        (34, 200, 741693788153748088),
        (35, 200, 2169258331647315784),
        (36, 208, 600486631636595736),
        (37, 216, 630860605289935912),
        (38, 224, 1126024400871049768),
        (39, 224, 1153534531221076380),
        (40, 232, 2041457104677560716),
    ];
    for &(r, n, h) in expected.iter() {
        m.radius = r;
        m.compute();
        assert_eq!(m.points().len(), n);
        assert_eq!(digest(m.points()), h);
    }
}

#[test]
fn baseline_circle_sweep_of_radii() {
    let mut a = BaselineCircle::default();
    let expected: [(i32, usize, u64); 22] = [
        (-1, 0, 0),
        (0, 1, 281745559519111),
        (1, 5, 1022018280882672791),
        (2, 13, 1958010976707655687),
        (3, 29, 579756824554091775),
        (4, 49, 1812671127098460143),
        (5, 81, 80220210568248591),
        (6, 113, 564509215426809215),
        (7, 149, 1712871701910543727),
        (8, 197, 659933524200691271),
        (9, 253, 503557238303543335),
        (10, 317, 1407627203550456647),
        (11, 377, 74702646407781903),
        (12, 441, 902952913212583607),
        (13, 529, 2109901500659543463),
        (14, 613, 879323438742935935),
        (15, 709, 1018912087335964687),
        (16, 797, 683129838802084103),
        (17, 901, 2010677876053881695),
        (18, 1009, 1478134847393250119),
        (19, 1129, 30894410381568951),
        (20, 1257, 1961505616803266135),
    ];
    for &(p0, n, h) in expected.iter() {
        a.center_x = -2;
        a.center_y = 5;
        a.radius = p0;
        a.compute();
        assert_eq!(a.points().len(), n);
        assert_eq!(digest(a.points()), h);
    }
}

#[test]
fn scanline_circle_sweep_of_radii() {
    let mut a = ScanlineCircle::default();
    let expected: [(i32, usize, u64); 26] = [
        (0, 4, 1728233110023383552),
        (1, 8, 2113447524605381586),
        (2, 28, 803321967112877098),
        (3, 56, 1986855467870230678),
        (4, 96, 2206211456805174248),
        (5, 116, 1707876442063183010),
        (6, 168, 185252966475972314),
        (7, 236, 2227037987587135658),
        (8, 260, 498371157741620310),
        (9, 340, 116775729957797772),
        (10, 436, 499392519669435514),
        (11, 536, 922146469695660874),
        (12, 576, 1053611016184373502),
        (13, 692, 1661053145812609446),
        (14, 820, 1712009676593331924),
        (15, 868, 891482249392040908),
        (16, 1008, 877506925032554304),
        (17, 1164, 112654989333981260),
        (18, 1224, 2171184396496236858),
        (19, 1392, 1828492184152888044),
        (20, 1568, 976804051258874354),
        (21, 1756, 661793582665441214),
        (22, 1828, 1232163736006888962),
        (23, 2036, 449760153149423224),
        (24, 2248, 1285686570857964304),
        (25, 2324, 632127980975373446),
    ];
    for &(p0, n, h) in expected.iter() {
        a.center_x = 1;
        a.center_y = 1;
        a.radius = p0;
        a.compute();
        assert_eq!(a.points().len(), n);
        assert_eq!(digest(a.points()), h);
    }
}

#[test]
fn gap_fill_circle_sweep_of_radii() {
    let mut a = GapFillCircle::default();
    let expected: [(i32, usize, u64); 21] = [
        (0, 0, 0),
        (1, 8, 1767600097764086060),
        (2, 24, 820003601849760232),
        (3, 48, 2166998168320024332),
        (4, 80, 1347395690585952124),
        (5, 112, 1588944844698985512),
        (6, 152, 715191944884606852),
        (7, 200, 1306139635271233920),
        (8, 248, 1253003102673359428),
        (9, 304, 982012582664864780),
        (10, 368, 1468048992274689480),
        (11, 440, 1585507275830451908),
        (12, 512, 295090428004204088),
        (13, 592, 286088918144405084),
        (14, 680, 1029539886732408980),
        (15, 768, 2060336511176207836),
        (16, 864, 1280823770754174236),
        (17, 968, 793403588591409476),
        (18, 1072, 2148234074436887200),
        (19, 1184, 2211414726235367112),
        (20, 1304, 1254627735735941012),
    ];
    for &(p0, n, h) in expected.iter() {
        a.center_x = 0;
        a.center_y = 2;
        a.radius = p0;
        a.compute();
        assert_eq!(a.points().len(), n);
        assert_eq!(digest(a.points()), h);
    }
}

#[test]
fn sitaraman_fill_circle_sweep_of_radii() {
    let mut a = SitaramanFillCircle::default();
    let expected: [(i32, usize, u64); 21] = [
        (0, 0, 0),
        (1, 16, 856575007154604228),
        (2, 32, 1126161196072994080),
        (3, 64, 2047601680458903456),
        (4, 104, 975693512891459848),
        (5, 136, 238781927061249780),
        (6, 192, 1464771891810984536),
        (7, 240, 431517513788626996),
        (8, 296, 768341184139315800),
        (9, 368, 1679926739194141020),
        (10, 440, 1668287963393419068),
        (11, 520, 2029341075913003512),
        (12, 600, 1468821365405559160),
        (13, 696, 881383831621720484),
        (14, 792, 501075490130017836),
        (15, 888, 768549337280320924),
        (16, 1000, 803353120076518400),
        (17, 1120, 1799538958334843084),
        (18, 1240, 385740024741202504),
        (19, 1360, 142167865668922820),
        (20, 1496, 1494456089365265048),
    ];
    for &(p0, n, h) in expected.iter() {
        a.center_x = -3;
        a.center_y = 0;
        a.radius = p0;
        a.compute();
        assert_eq!(a.points().len(), n);
        assert_eq!(digest(a.points()), h);
    }
}

#[test]
fn midpoint_ellipse_sweep_of_radii() {
    let mut a = MidpointEllipse::default();
    let expected: [(i32, i32, usize, u64); 24] = [
        (1, 1, 8, 203308612047805468),
        (1, 4, 20, 1552581119533087896),
        (1, 7, 32, 1231152239344240244),
        (1, 10, 44, 1292192291497251248),
        (3, 1, 16, 2108890902826976008),
        (3, 4, 24, 1773453056838083008),
        (3, 7, 36, 910559564955151852),
        (3, 10, 44, 987448388870343236),
        (5, 1, 24, 1769123614573644452),
        (5, 4, 28, 1614171529549708968),
        (5, 7, 40, 714471575672775624),
        (5, 10, 48, 209930978954597156),
        (7, 1, 32, 1655167837536465136),
        (7, 4, 36, 1057293629347596844),
        (7, 7, 44, 1850018060856936088),
        (7, 10, 52, 21121082022807364),
        (9, 1, 36, 168141530293979000),
        (9, 4, 44, 1581113422386939744),
        (9, 7, 48, 474514082507639060),
        (9, 10, 56, 1621761003642078896),
        (11, 1, 44, 2122100413315765260),
        (11, 4, 52, 960756607893548580),
        (11, 7, 56, 1401249211054948528),
        (11, 10, 64, 1829171102325319440),
    ];
    for &(p0, p1, n, h) in expected.iter() {
        a.base.center_x = 2;
        a.base.center_y = -1;
        a.base.radius_x = p0;
        a.base.radius_y = p1;
        a.compute();
        assert_eq!(a.points().len(), n);
        assert_eq!(digest(a.points()), h);
    }
}

#[test]
fn gap_fill_ellipse_sweep_of_radii() {
    let mut a = GapFillEllipse::default();
    let expected: [(i32, i32, usize, u64); 24] = [
        (1, 1, 8, 1321734882414429580),
        (1, 4, 20, 437507437534977392),
        (1, 7, 32, 925571059994046516),
        (1, 10, 44, 1286632986777599448),
        (3, 1, 16, 37893922483227624),
        (3, 4, 56, 828997408112556700),
        (3, 7, 88, 1744717347882245880),
        (3, 10, 120, 132284953487738624),
        (5, 1, 24, 1962011119377361140),
        (5, 4, 80, 2273042695709171396),
        (5, 7, 136, 1218113730620804628),
        (5, 10, 192, 1494264610620607044),
        (7, 1, 32, 427745603968866992),
        (7, 4, 112, 562582077032779476),
        (7, 7, 184, 2243013928121272376),
        (7, 10, 252, 1170866992096459592),
        (9, 1, 36, 2007650681460059952),
        (9, 4, 140, 1948293622886561636),
        (9, 7, 228, 1978512705396504708),
        (9, 10, 316, 1308357333495278104),
        (11, 1, 44, 1954033083852390452),
        (11, 4, 168, 1797538492412830620),
        (11, 7, 280, 2248564819455406564),
        (11, 10, 376, 1188705960354733812),
    ];
    for &(p0, p1, n, h) in expected.iter() {
        a.base.radius_x = p0;
        a.base.radius_y = p1;
        a.compute();
        assert_eq!(a.points().len(), n);
        assert_eq!(digest(a.points()), h);
    }
}

#[test]
fn roland_fill_ellipse_sweep_of_radii() {
    let mut a = RolandFillEllipse::default();
    let expected: [(i32, i32, usize, u64); 24] = [
        (1, 1, 8, 1003818811346495692),
        (1, 4, 20, 866960675070131344),
        (1, 7, 32, 1197427208486317364),
        (1, 10, 44, 449806071639120568),
        (3, 1, 16, 1247993633729436264),
        (3, 4, 56, 1337803114080082268),
        (3, 7, 88, 1466927471529401016),
        (3, 10, 120, 878727206296199104),
        (5, 1, 24, 1193911027119614644),
        (5, 4, 80, 504402586514499396),
        (5, 7, 136, 1312764225722377556),
        (5, 10, 192, 588513958059145284),
        (7, 1, 32, 338974514214852528),
        (7, 4, 112, 171761954979730516),
        (7, 7, 184, 229036986121739000),
        (7, 10, 252, 186980804131654824),
        (9, 1, 36, 1380081731291268304),
        (9, 4, 140, 1179956292658895684),
        (9, 7, 228, 769116913125006372),
        (9, 10, 316, 1918224047643956600),
        (11, 1, 44, 178292387566673172),
        (11, 4, 168, 292627491706771420),
        (11, 7, 280, 247923407462570916),
        (11, 10, 376, 2292820432882098100),
    ];
    for &(p0, p1, n, h) in expected.iter() {
        a.center_x = -1;
        a.center_y = 3;
        a.radius_x = p0;
        a.radius_y = p1;
        a.compute();
        assert_eq!(a.points().len(), n);
        assert_eq!(digest(a.points()), h);
    }
}

#[test]
fn own_fill_ellipse_sweep_of_radii() {
    let mut a = OwnFillEllipse::default();
    let expected: [(i32, i32, usize, u64); 24] = [
        (1, 1, 15, 2198297084706030160),
        (1, 4, 24, 564215801482565724),
        (1, 7, 36, 1220233895017496768),
        (1, 10, 48, 1845331156280230916),
        (3, 1, 27, 490649194853383028),
        (3, 4, 73, 559493327788217552),
        (3, 7, 108, 1870077938009713964),
        (3, 10, 144, 690524545790987220),
        (5, 1, 39, 1766302860738613064),
        (5, 4, 117, 1687883131937549576),
        (5, 7, 180, 240316457679670272),
        (5, 10, 240, 1958234371692585884),
        (7, 1, 51, 1057670534360201164),
        (7, 4, 153, 139575813661274668),
        (7, 7, 255, 486760930318133528),
        (7, 10, 336, 1636335249756417148),
        (9, 1, 59, 1686751407581504888),
        (9, 4, 189, 1991979608802545092),
        (9, 7, 315, 1861905385788693460),
        (9, 10, 433, 1833112220498319408),
        (11, 1, 71, 2298892943816797012),
        (11, 4, 221, 1792977267566172024),
        (11, 7, 375, 380052427826487580),
        (11, 10, 525, 1705595213471105076),
    ];
    for &(p0, p1, n, h) in expected.iter() {
        a.base.radius_x = p0;
        a.base.radius_y = p1;
        a.compute();
        assert_eq!(a.points().len(), n);
        assert_eq!(digest(a.points()), h);
    }
}

#[test]
fn virtual_fill_ellipse_sweep_of_radii() {
    let mut a = VirtualFillEllipse::default();
    let expected: [(i32, i32, usize, u64); 24] = [
        (1, 1, 12, 49814944088695512),
        (1, 4, 20, 774054792336598384),
        (1, 7, 32, 92055787665813556),
        (1, 10, 44, 883113260995343832),
        (3, 1, 16, 1945449943483280360),
        (3, 4, 60, 6532570487183624),
        (3, 7, 92, 508322432605284196),
        (3, 10, 124, 231994419713546860),
        (5, 1, 24, 1685263495666473204),
        (5, 4, 84, 1062864417472532636),
        (5, 7, 144, 1729693394181439416),
        (5, 10, 196, 1984152281166415056),
        (7, 1, 32, 149980914851502768),
        (7, 4, 112, 2246236869308296916),
        (7, 7, 196, 1286213420686032172),
        (7, 10, 264, 1836755515571829296),
        (9, 1, 36, 1802372669699741488),
        (9, 4, 140, 1832088425719689060),
        (9, 7, 232, 2228503111187907528),
        (9, 10, 332, 1381625480500173544),
        (11, 1, 44, 1481344232617982004),
        (11, 4, 168, 563072105916773276),
        (11, 7, 284, 721420906764944084),
        (11, 10, 384, 644552084794075056),
    ];
    for &(p0, p1, n, h) in expected.iter() {
        a.center_x = 4;
        a.center_y = 4;
        a.radius_x = p0;
        a.radius_y = p1;
        a.compute();
        assert_eq!(a.points().len(), n);
        assert_eq!(digest(a.points()), h);
    }
}

#[test]
fn midpoint_line_sweep_of_ends() {
    let mut a = MidpointLine::default();
    let expected: [(i32, i32, i32, i32, usize, u64); 10] = [
        (0, 0, 9, 4, 10, 2266845493756637315),
        (0, 0, -5, -11, 12, 2168704619302326150),
        (0, 0, 2, 13, 14, 1122511025102124187),
        (0, 0, -12, 1, 13, 566778805402168602),
        (0, 0, 0, 0, 1, 0),
        (-7, 3, 9, 4, 17, 643796806386455410),
        (-7, 3, -5, -11, 15, 869992439028607834),
        (-7, 3, 2, 13, 11, 1243008159308488718),
        (-7, 3, -12, 1, 6, 634691317515814847),
        (-7, 3, 0, 0, 8, 710949369857480100),
    ];
    for &(p0, p1, p2, p3, n, h) in expected.iter() {
        a.x0 = p0;
        a.y0 = p1;
        a.x1 = p2;
        a.y1 = p3;
        a.compute();
        assert_eq!(a.points().len(), n);
        assert_eq!(digest(a.points()), h);
    }
}
