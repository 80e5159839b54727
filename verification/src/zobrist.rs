//! The position hash: one fixed 64-bit key for every feature of a position,
//! combined by exclusive or.
//!
//! The features are the piece on each square, each castling right that is
//! still held, the file of the en-passant square, and Black being to move.
use vstd::prelude::*;
use crate::bits::lsb;
use crate::bitboard::{file_of, BitBoard, PieceType, Side};
use crate::chessboard::{cpt_index, piece_index, ChessBoard};

verus! {

/// One key for each square and each of the twelve pieces.
pub const ZH_PIECE_KEYS: [[u64; 12]; 64] = [
    [
        11649360378367592562, 15874266044322398818, 13358298267811385711, 11517226955169310093,
        7785449912579291613, 11987742406595484964, 5273849987073312900, 6414093628429638632,
        6073891907990312073, 12267466340209826993, 13879235981486158591, 4650897482345366460,
    ],
    [
        10212951969080192299, 14859470432780376578, 15132549311343058648, 18021385666288400224,
        8903090014600179490, 11955416193095048771, 6369310106067506704, 3215505740984848128,
        6167858331790515798, 7906321719453278453, 4260076893754002488, 8658779822187701468,
    ],
    [
        9791658838455668095, 16911306289016467386, 14732354847742049260, 16711138440490065886,
        4980209479366463420, 15930748531858109729, 10197789719261113864, 519154468693253581,
        9869543112804289986, 16300995609657583306, 724639724172017244, 15857835098612520538,
    ],
    [
        7419224766397067241, 7655273564913272805, 7190784303332036412, 2612450910397931720,
        17177723060047616633, 14003928210563933209, 17577063202657060597, 4057291853745572672,
        894350242472182428, 18440654079916620548, 18370059514739227136, 18100487786937295816,
    ],
    [
        4540697281450478151, 10959315846913131452, 12374997617922651221, 16078445359423361668,
        5506757285683615719, 11708265826211409921, 7634379723654910818, 1786897194385660405,
        8478156720766491889, 13179421190112654803, 15432346513071886782, 12235790734059416573,
    ],
    [
        15102075098821060567, 5864094832784938916, 8693808734616718812, 4774167416311541591,
        9407827853871600158, 5036986972913483074, 16459914423964944697, 9599910928403443224,
        8680345405212658711, 34948736271424203, 11140815635374034978, 6219589680077917427,
    ],
    [
        12685910156127355126, 3046996110540266629, 256185952445463788, 6369104699509403249,
        15822365175139727492, 9489968820115722130, 387077999123901078, 845253841740752820,
        5804803258547760215, 5920043842717762116, 11533142499127151891, 13884357894666687217,
    ],
    [
        15656533194976535714, 2361430565911213262, 13154008255490341451, 16237020840377979104,
        16490353220749911253, 11442710689065807954, 9110004028231952951, 16222947167539680132,
        7284994485224751478, 18390488009929442273, 8533255380738342499, 9110326413241463636,
    ],
    [
        5728272574160103686, 8510500721195889288, 6676417758086664951, 9621981165712524989,
        4548250075198197901, 5049120513785868241, 12146822937348725698, 10491190948140135956,
        7821226172416184137, 18254990867928570397, 2378520867832291233, 135477415055244568,
    ],
    [
        2825901155640567254, 1903186817871594688, 18101891542441717261, 13782983792399316694,
        14929380146268669129, 733686471241133128, 14514887047502535660, 14128207014108399184,
        9537102421749467161, 13984066737992781297, 16286588233924965098, 12186085620686453059,
    ],
    [
        17108093811667803831, 7774020209605121760, 5598639951922459026, 8461063609934752839,
        11468739846136377917, 6253027074136317495, 12996746564202689587, 5588842227303907148,
        575346816583814888, 5165573188679135782, 8978433054722353030, 1109680854363233478,
    ],
    [
        4099512801345881190, 623426345973902716, 3025405725915864229, 4111361583264376951,
        7067355212846562988, 17345698829597963755, 10807651001060047365, 8214844237607600263,
        17773686292963642226, 4233654098456459867, 14497594808517371979, 11817265094736638436,
    ],
    [
        2522853440704040191, 394172442374815231, 4061687696991137611, 12519871651236660794,
        5009431739462177668, 1522885171263983017, 9155487816117475350, 10379892324061127512,
        2570899594048510401, 17829530844389191229, 16741564134617282736, 16074639296428420606,
    ],
    [
        17031139621282256570, 14446758980250240958, 7541038076982086770, 16088975869770947266,
        534276942063249974, 10801018471703363169, 1281913608069445867, 4784876212295801413,
        6186105731722332030, 13158753642979731039, 11710955968211907138, 8963724090984417843,
    ],
    [
        10423183156429107238, 14475862455648204345, 16433193990077648657, 539777526157295179,
        3026514590487639782, 9192136930260507488, 12360655971976786594, 17788250481037544293,
        14074469617942599326, 3961697193287028436, 287987646090265232, 11280503099944194275,
    ],
    [
        1913152888649924419, 3269426874178497226, 9428233852841292233, 16470942717070933557,
        13452720376914387498, 13517426250165022571, 8256313042623743525, 9662869942092388345,
        14839722753575977734, 604382169373409530, 13813365047748863926, 8461363947254555976,
    ],
    [
        7051560120674943910, 17985416276776935465, 9531623638418471576, 8589820347481854177,
        2611087442692960155, 16269839662507311440, 515823671014626000, 3555074465477212238,
        2688301892161775445, 88838723982144517, 7751011220428361773, 17922180761480764551,
    ],
    [
        1898719085908631131, 16426645275766390517, 6093576246148170473, 17801026100383629872,
        12688464693598880167, 8557679046670243647, 8920698185217601075, 6550138302318073128,
        10484885717437618230, 5358940818823898783, 7576553479986284767, 12551644455927962853,
    ],
    [
        4637413408460158438, 4043155840418721536, 14499151105319776988, 6383021898439792130,
        11821252872135312159, 6902813725040227399, 14586374082623718940, 13397646266841062959,
        6562694058000810671, 3396892223741729417, 9867208269966420158, 15425723550680316166,
    ],
    [
        14509254912679775515, 1996909855476090391, 13587629168178434969, 4388512496119655575,
        2660541327200606243, 14227857020031000847, 14819991844180209549, 6240052298345718833,
        16273241714414119179, 5782673831649668988, 13504215107165993868, 7079827799905107232,
    ],
    [
        1996319421570217506, 11850607300421941872, 16022874389166950878, 18230504802099662588,
        5700631588375789420, 12971152530683578448, 8475596356384462820, 1040084389067865812,
        9303151451014384621, 1146605896731570937, 13059199954820821782, 8013712852755022720,
    ],
    [
        11664771491438771298, 14968766297662776643, 9900668672724301371, 15074620372851619271,
        8692348565957058499, 7289276081503637247, 1506460004333627080, 4044608072737426751,
        4024210190085478367, 9377229361568556667, 17442337467538803252, 7667694678511660105,
    ],
    [
        1901717266972022127, 1489317447548150563, 10900227721999928486, 5155047589176544839,
        15351073696767319929, 9066793902005053567, 16776409776193876668, 15347774395029809445,
        13461538646184025396, 11120338830509378379, 15644022483297001950, 13926918745067351434,
    ],
    [
        16724441622009597096, 14905166961920450858, 5048874899947978383, 11623942677618291314,
        6880938561958517309, 2959301735303470313, 4275365721514248011, 9423372437337068058,
        996910645382467023, 12093770737115355200, 7894458230267358831, 8633048957208510212,
    ],
    [
        18018861988934300385, 2192846716005156847, 12572708700556646838, 16852007020208723977,
        8737743119725332217, 14350784061198371713, 15755216428127363499, 15501480637333113369,
        6726388682169324057, 7908747796310430134, 1074331102876512479, 7625590068174158416,
    ],
    [
        7726599961164250131, 4437103229335835429, 10444256016372087720, 3848236506421412943,
        11677561258355233068, 12606494596626438984, 6019161811771640969, 14975301070601423127,
        2766131991660486390, 3371251209876643798, 9672209364465937988, 12868086664070183883,
    ],
    [
        13157214796524654726, 16438178797328130695, 17014328388810498148, 763033128311551695,
        5820228081816009262, 9710721650982085535, 4428240097178537050, 4735972952824747783,
        15651795860577686668, 12277156006165336471, 9903140119850425222, 9448142080063829897,
    ],
    [
        16127467651928606731, 1029121599393349917, 3249760006773968563, 3423900128617146365,
        5741088830295163051, 8269882731514212266, 345920645567487910, 17467323433118184843,
        7336171185419306667, 16398189352267768862, 6785374836136972362, 15541563933181111715,
    ],
    [
        16296338373549602974, 2399847202736333121, 6457218135334097074, 9892043294137290185,
        17418513261090101125, 3193778736692157669, 17746666740936125879, 13975082082865428911,
        6366314881976333647, 11013814988137485632, 7682646320665970981, 15831504833070606543,
    ],
    [
        3858918878224865663, 9682340893715503028, 773715170651108574, 17105661411642031257,
        3374371553245629608, 846571004775987117, 10869860616868166516, 942911828403752732,
        9628961084257737873, 9128355034410454945, 7234720835206917161, 12276649814551948110,
    ],
    [
        1707605985507806188, 9856470993262782934, 3563180606085273142, 9202464764198970970,
        13030484218578811506, 13243482587076584816, 5095658230590361466, 3533466595860681290,
        15423437439616988477, 3050123904168647698, 6420150630630199, 14746961147872008718,
    ],
    [
        7945948287104201568, 15919672660904011191, 15959543236241220221, 4243252883191817403,
        8185121602118098451, 8645154702303406914, 17808666749113965944, 16673893026104913483,
        2787452220991419144, 5341356203311155684, 10993155192531413489, 10676309324351214391,
    ],
    [
        9403624166868065802, 1631652596505707410, 2165550500723918615, 14169678794003595746,
        11748246248613471994, 13975415903795209595, 17907584190081425122, 10238802817980040784,
        10021154633279389343, 3621311125475484658, 4489853721588530517, 6545734766553909154,
    ],
    [
        11548531987151270326, 56182312929063301, 9171348281144810972, 1340468383244777284,
        9753266015384913927, 12334993034181524043, 18341316721492439301, 5772358945016970000,
        6368111864546354838, 1431260908470665454, 3061143471963230715, 1804742611754570537,
    ],
    [
        18004325925855546027, 3578242346395756486, 13867178033836693037, 440959796429860652,
        6457757406990995433, 13215405668782503425, 2893339371449068371, 16794839887386943567,
        2422179348595144347, 10432722667333529467, 2304221295360263497, 9004423124779613242,
    ],
    [
        4780640132243547868, 12486835589638200952, 5593040757232725147, 4846963207318785069,
        14302167071168006162, 969394369303588361, 16645044010864465709, 4973639224598977872,
        6434279539158563771, 2970193780204685764, 7779951228037915001, 13082833757200868480,
    ],
    [
        9181695439878108605, 13481216026501151440, 3105544132992597373, 1579764249997924947,
        13424586327497683345, 13752752049667061484, 10271389343174182960, 908772482972385029,
        18294448384462430745, 2489837195784110876, 9958562889371265272, 781770860506621640,
    ],
    [
        3532729058774911412, 1468225476671373283, 9465254559064654757, 12065282485963376483,
        9543593262572317227, 14764802197071310266, 8268617637764220825, 13664319657697261117,
        13412314385792144554, 9113372987644799584, 6850721789814051208, 14677150171664649159,
    ],
    [
        12012674393292520466, 13225216703068957132, 5074969637877649077, 12596152717656783132,
        4212012078606977471, 688059095959643865, 7068874165307879852, 7158937047750052770,
        2959759328733957697, 2572983706976621047, 17027878642558314292, 7696913091689018042,
    ],
    [
        16660228394166940975, 8763940628030545055, 2596423577486868656, 5368005687735534372,
        9304053779580184306, 6205948915449215390, 9623824342034812229, 9099110422636570523,
        11985441228481300994, 8890585119504843884, 16677712712303765567, 5121621932497360567,
    ],
    [
        9429243113595265492, 11333637286045337048, 1449824856126674050, 4219368182328577109,
        3933118071044586270, 6070542068533332916, 9447652564263290155, 15020743576880487026,
        14617038334477895611, 16337902362826744578, 7294259090476023907, 12985600540067480445,
    ],
    [
        12639090864812335739, 5986323066941974989, 12849201187012362008, 14445200826329839099,
        15757096077056423107, 13962792505839318705, 2412781398818678195, 1794537608597023642,
        14332945934490615251, 6162052929763598875, 8018028428512893408, 15401552011325186687,
    ],
    [
        17418024433016343680, 154658362412119856, 17624045206926931049, 17667094802924108994,
        2524907524654013630, 11691614272073992649, 12217351380013177432, 1046952567719130872,
        13478597270016577403, 15363490358716084995, 17810084088630844409, 13304314575826710842,
    ],
    [
        10961332313759616381, 17425280925873325302, 7314610107812140681, 15173432190439556873,
        12724239072607697054, 369582615098740547, 407981161771773742, 11679162202110710932,
        14695316249178901248, 6481395869484507381, 9942761678540909031, 5548777092099040698,
    ],
    [
        8617815372809097852, 15396475639111198483, 2907665357909953323, 9923799893662657107,
        6653898221998197824, 3910394422151425755, 8082798537938225187, 9147291240487843499,
        605316962796958975, 7294979221453019982, 16656651689234602902, 8382176006044578926,
    ],
    [
        17224632516517742569, 2074154260670213273, 2187055750898258118, 7983529408927387567,
        15368590123555950358, 11896564840137064188, 10604924104507091993, 13499821009993535846,
        14615140731666045110, 1386254814744884479, 13837986624883582980, 11668022960163972993,
    ],
    [
        6607580305892864866, 7466444628116424835, 281569652911041835, 8529202816761637322,
        11212170960466084034, 12302007445845717611, 10631334147477572701, 6707109700611398031,
        4942019920882703384, 3494870730776605372, 8761866537108496782, 5312076346401448397,
    ],
    [
        4626622475221586073, 17177794175935518113, 4585202408753728986, 2382270296530091226,
        12877562708770497947, 15830024476617316409, 796400106903254174, 14506628651603577474,
        3696307527975268801, 11381197106673289213, 12284847373298903541, 12046841225705000489,
    ],
    [
        15408650559269228869, 8840961163398090393, 12714092965619010364, 5492813788369046011,
        5841482987093391031, 4450271265434470277, 4304833121550333368, 10926194810606148986,
        4072328349225561499, 13061640880157562375, 11399600823687809125, 7934571350773788585,
    ],
    [
        18132287508814884379, 2335626321508079278, 14548073588572346205, 17385325654354375648,
        10145441223753776752, 5116953369440379088, 7310637563801410088, 17568468466256863885,
        11803995727502435032, 7228086822873151709, 4555881724419008596, 17033211763294847675,
    ],
    [
        14966195936965067268, 2981794491948293810, 15737233950896504907, 355644489266926232,
        12395252928030301219, 4951717485796359611, 276868438401368473, 4605346221684965672,
        2878474811982588943, 327846554916075059, 14536349767292904263, 9157833909856160450,
    ],
    [
        15849775923686871417, 7812514181046648521, 1698966955095773220, 9754795879602217510,
        10988978593591888362, 10608349262077442522, 14718531275288777409, 1289199202592693942,
        8198427420404896128, 18400345310620875786, 17848569192607044862, 16923443992651250353,
    ],
    [
        1521316042797202328, 7618659390924720069, 5709057395656590556, 12530438736221791991,
        13138707564512177191, 8499226405446953788, 16433617613651427545, 17036279805642919025,
        5461591032143862168, 5968743073609601167, 4141252120808893442, 1620780364965425968,
    ],
    [
        2871089070988458225, 14832980351046814149, 4075148700516593835, 10033698742491673414,
        4343324512457267198, 16336293077703256472, 3868111892777241579, 14609035761974265208,
        16239204863649173590, 1355548061563048743, 5364456187523758374, 15090989499591999011,
    ],
    [
        15335968336957651022, 4215241480372090071, 16499051111983610712, 2944365776102793696,
        8299646434879747883, 8095057462549752477, 14636958375945640377, 10425130494281608272,
        6338921575082711513, 14215683278132053505, 16703380114496149140, 16817557548483454650,
    ],
    [
        4214826225491115416, 5815941313169302256, 10127930881517675232, 7775114229482020638,
        11908744976251770115, 16680700255536980941, 13226581127357126284, 9955002670333632400,
        14868444775694583780, 2148234486308254762, 7443805731371408727, 4675886902804534256,
    ],
    [
        1767798586630170348, 7741113346166806494, 5824431231697559544, 7842540555583090040,
        208250988282093809, 1921423784632396118, 15998358970975421052, 9890189812625803203,
        15599116339307040754, 6362564462494965410, 9680592959688683494, 43565806057224665,
    ],
    [
        18198319421367184191, 8663754226505354340, 16998794507631819983, 4004195935232345974,
        10841249478188513983, 3868065188536708351, 14187164756509610351, 9345443470304482489,
        11517888978562984214, 6613045958006149247, 15340950616015439872, 2127004569619823416,
    ],
    [
        7106194589355722260, 16844956113032083190, 11571717347216480519, 15033876840362233177,
        11959072950473206121, 11672342327679140694, 8276697531791234613, 4605715867015334891,
        2708206516895737253, 16189970906814429166, 1743169389719177280, 17519541824404500404,
    ],
    [
        15426709069634003169, 3494412864914728295, 12894984109088038056, 4328052962870574963,
        13357305285237091988, 14472829109379320901, 14843686616576784331, 6867520683696448787,
        2047571578897519757, 9562018503583484511, 10729276512414756020, 12121247056749329052,
    ],
    [
        5070680753802680711, 14822106932491528595, 5078028793030918623, 12377065439522508756,
        14189984527744086631, 7943664908235575360, 8498578566168762609, 12000076286189310276,
        6362826919407724554, 11530434703208190475, 17033410690648979955, 7554313653292127635,
    ],
    [
        7046963210819048226, 11397316884184533145, 10985983304199029471, 3291409556853573065,
        7565093165262767077, 16337303391361231194, 17669908151434013333, 3913365214893631933,
        5117328184434525441, 15100288741277907332, 9473795786220201977, 15688017444614126281,
    ],
    [
        16744832919829438496, 18235465113706085460, 8278038647281859056, 20244351167557056,
        16210054571851336238, 13325649176133256824, 15131600813396970063, 12859914437817650451,
        96670914650647945, 629016116328170513, 2343778633396251847, 13832913956104484387,
    ],
    [
        6284197652488151500, 4643929950577355398, 11589034196701729348, 4255276912148789280,
        16453239592173970793, 14280499481704223381, 14463101049584335816, 14482677479086724261,
        13894809945481435820, 15513757828565910155, 270246162587239947, 1327566141813347118,
    ],
];

/// Four keys for the castling rights (white short, white long, black short,
/// black long), then eight for the file of the en-passant square.
pub const ZH_EXTRA_KEYS: [u64; 12] = [
    7646256629535137843, 7686626262289413131, 8375753454377820881, 17655566769599551318,
    2160563305958692209, 3038424709401290825, 13694627374606792971, 17438082743793298002,
    17019090133566225818, 3587443712359091964, 3966153725277649354, 16770344834736168106,
];

/// The key that is in the hash when Black is to move.
pub const ZH_SIDE_KEY: u64 = 8110401300783452258;

/// The key of what stands on square `s`; zero for an empty square.
pub open spec fn square_key(entry: Option<(Side, PieceType)>, s: int) -> u64 {
    match entry {
        Some(p) => ZH_PIECE_KEYS[s][piece_index(p)],
        None => 0,
    }
}

/// Exclusive or of the keys of the first `n` squares.
pub open spec fn pieces_hash(mailbox: Seq<Option<(Side, PieceType)>>, n: int) -> u64
    decreases n,
{
    if n <= 0 {
        0
    } else {
        pieces_hash(mailbox, n - 1) ^ square_key(mailbox[n - 1], n - 1)
    }
}

/// The key of castling right `i` when it is held, else zero.
pub open spec fn castle_key(castle: Seq<bool>, i: int) -> u64 {
    if castle[i] {
        ZH_EXTRA_KEYS[i]
    } else {
        0
    }
}

/// Exclusive or of the keys of the castling rights that are held.
pub open spec fn castle_hash(castle: Seq<bool>) -> u64 {
    castle_key(castle, 0) ^ castle_key(castle, 1) ^ castle_key(castle, 2) ^ castle_key(castle, 3)
}

/// The key of the file of the en-passant square; zero when there is none.
pub open spec fn ep_hash(ep: u64) -> u64 {
    if ep == 0 {
        0
    } else {
        ZH_EXTRA_KEYS[4 + file_of(lsb(ep))]
    }
}

/// The side key when Black is to move, else zero.
pub open spec fn side_hash(side: Side) -> u64 {
    match side {
        Side::White => 0,
        Side::Black => ZH_SIDE_KEY,
    }
}

/// The hash of a position, from its parts.
pub open spec fn hash_spec(
    mailbox: Seq<Option<(Side, PieceType)>>,
    castle: Seq<bool>,
    ep: u64,
    side: Side,
) -> u64 {
    side_hash(side) ^ pieces_hash(mailbox, 64) ^ castle_hash(castle) ^ ep_hash(ep)
}

/// The laws of exclusive or that the incremental update rests on.
pub proof fn lemma_xor(a: u64, b: u64, c: u64)
    ensures
        a ^ b == b ^ a,
        (a ^ b) ^ c == a ^ (b ^ c),
        (a ^ b) ^ c == (a ^ c) ^ b,
        (a ^ b) ^ b == a,
        a ^ a == 0,
        a ^ 0 == a,
        0 ^ a == a,
{
    assert(a ^ b == b ^ a && (a ^ b) ^ c == a ^ (b ^ c) && (a ^ b) ^ c == (a ^ c) ^ b && (a ^ b)
        ^ b == a && a ^ a == 0 && a ^ 0 == a && 0 ^ a == a) by (bit_vector);
}

/// Changing one square changes the hash of the squares by the old key and
/// the new key of that square.
pub proof fn lemma_pieces_hash_update(
    mailbox: Seq<Option<(Side, PieceType)>>,
    s: int,
    v: Option<(Side, PieceType)>,
    n: int,
)
    requires
        mailbox.len() == 64,
        0 <= s < 64,
        0 <= n <= 64,
    ensures
        pieces_hash(mailbox.update(s, v), n) == (if s < n {
            pieces_hash(mailbox, n) ^ square_key(mailbox[s], s) ^ square_key(v, s)
        } else {
            pieces_hash(mailbox, n)
        }),
    decreases n,
{
    if n > 0 {
        lemma_pieces_hash_update(mailbox, s, v, n - 1);
        let m2 = mailbox.update(s, v);
        let h = pieces_hash(mailbox, n - 1);
        let k_old = square_key(mailbox[s], s);
        let k_new = square_key(v, s);
        if s == n - 1 {
            // pieces_hash(m2, n) == h ^ k_new, pieces_hash(mailbox, n) == h ^ k_old
            lemma_xor(h, k_old, k_new);
            lemma_xor(h ^ k_old, k_old, k_new);
            assert((h ^ k_old) ^ k_old == h);
        } else if s < n - 1 {
            let k = square_key(mailbox[n - 1], n - 1);
            lemma_xor(h ^ k_old, k_new, k);
            lemma_xor(h, k_old, k);
        } else {
        }
    }
}

/// The hash function of positions; its table holds the keys of the pieces.
#[derive(Debug, Copy, Clone, PartialEq, Eq)]
pub struct ZorbristHash {
    pub piece_data: [[u64; 12]; 64],
}

/// All the keys: those of the pieces, those of the castling rights and
/// en-passant files, and that of the side to move.
#[derive(Debug, Copy, Clone, PartialEq, Eq)]
pub struct ZorbristHashKey {
    pub piece_data: [[u64; 12]; 64],
    pub extra_data: [u64; 12],
    pub side_data: u64,
}

impl ZorbristHashKey {
    /// The shipped keys.
    pub fn new() -> (r: ZorbristHashKey)
        ensures
            r.piece_data == ZH_PIECE_KEYS,
            r.extra_data == ZH_EXTRA_KEYS,
            r.side_data == ZH_SIDE_KEY,
    {
        ZorbristHashKey {
            piece_data: ZH_PIECE_KEYS,
            extra_data: ZH_EXTRA_KEYS,
            side_data: ZH_SIDE_KEY,
        }
    }
}

impl ZorbristHash {
    /// The hash of a position, computed from scratch.
    pub fn hash(chessboard: &ChessBoard) -> (r: u64)
        ensures
            r == chessboard.recomputed_hash(),
    {
        let mut val: u64 = match chessboard.side_to_move {
            Side::White => 0u64,
            Side::Black => ZH_SIDE_KEY,
        };
        let ghost side = val;
        let mut i: usize = 0;
        proof {
            lemma_xor(val, 0, 0);
        }
        while i < 64
            invariant
                i <= 64,
                val == side ^ pieces_hash(chessboard.mailbox@, i as int),
            decreases 64 - i,
        {
            proof {
                lemma_xor(
                    side,
                    pieces_hash(chessboard.mailbox@, i as int),
                    square_key(chessboard.mailbox@[i as int], i as int),
                );
            }
            match chessboard.mailbox[i] {
                Some(p) => {
                    val = val ^ ZH_PIECE_KEYS[i][cpt_index(p)];
                },
                None => {
                    proof {
                        lemma_xor(val, 0, 0);
                    }
                },
            }
            i += 1;
        }
        val = val ^ castle_part(&chessboard.castle_bools);
        val = val ^ ep_part(chessboard.enpassant_bb);
        val
    }

    /// The key of `piece_type` on `square`.
    pub fn get_piece_hash(square: usize, piece_type: (Side, PieceType)) -> (r: u64)
        requires
            square < 64,
        ensures
            r == square_key(Some(piece_type), square as int),
    {
        ZH_PIECE_KEYS[square][cpt_index(piece_type)]
    }
}

/// The part of the hash that stands for the castling rights.
pub fn castle_part(castle: &[bool; 4]) -> (r: u64)
    ensures
        r == castle_hash(castle@),
{
    let mut val: u64 = 0;
    if castle[0] {
        val = ZH_EXTRA_KEYS[0];
    }
    if castle[1] {
        val = val ^ ZH_EXTRA_KEYS[1];
    }
    if castle[2] {
        val = val ^ ZH_EXTRA_KEYS[2];
    }
    if castle[3] {
        val = val ^ ZH_EXTRA_KEYS[3];
    }
    proof {
        let a = castle_key(castle@, 0);
        let b = castle_key(castle@, 1);
        let c = castle_key(castle@, 2);
        let d = castle_key(castle@, 3);
        lemma_xor(a, 0, 0);
        lemma_xor(a ^ b, 0, 0);
        lemma_xor(a ^ b ^ c, 0, 0);
    }
    val
}

/// The part of the hash that stands for the en-passant square.
pub fn ep_part(ep: BitBoard) -> (r: u64)
    ensures
        r == ep_hash(ep.data),
{
    match ep.lsb_index() {
        Some(square) => ZH_EXTRA_KEYS[4 + square % 8],
        None => 0,
    }
}

} // verus!
